use oxiwhisper::decode_utils::DecodeConstraints;
use oxiwhisper::decoder::attention::{
    attend, scaled_dot_product_cached, scaled_dot_product_flat, softmax, to_head_first, AttnMath,
    CachedSdpaConfig,
};
use oxiwhisper::decoder::forward::{embed, forward, get_block_name, Engine, ForwardCtx, Op};
use oxiwhisper::decoder::kv_cache::LayerKVCache;
use oxiwhisper::decoder::prompt::{build_prompt, encode_prompt_text};
use oxiwhisper::decoder::sampler::{
    decode_greedy, decode_sample, fresh_caches, Chooser, Sampling, MAX_DECODE_LENGTH,
};
use oxiwhisper::decoder::{
    decode, detect_language, get_initial_tokens, get_scale, language_code_from_token, prepare,
    Decoded, ScaleMath, Table,
};
use oxiwhisper::model::{Hparams, VocabEntry};
use oxiwhisper::probability::{token_log_prob, LogitMath};
use oxiwhisper::tokenizer::{self, SpecialTokens};
use oxiwhisper::types::TranscribeOptions;
use std::sync::Arc;

#[test]
fn test_kv_cache_new() {
    let cache = LayerKVCache::new(2, 4, 8, 0.0f32);
    assert_eq!(cache.seq_len, 0);
    assert_eq!(cache.n_head, 2);
    assert_eq!(cache.head_dim, 4);
    assert_eq!(cache.capacity, 8);
    assert!(cache.k_head(0).is_empty());
    assert!(cache.k_head(1).is_empty());
    assert!(cache.v_head(0).is_empty());
    assert!(cache.v_head(1).is_empty());
}

#[test]
fn test_kv_cache_append() {
    let n_head = 2;
    let head_dim = 4;
    let capacity = 8;
    let n_state = n_head * head_dim;
    let mut cache = LayerKVCache::new(n_head, head_dim, capacity, 0.0f32);

    let new_k: Vec<f32> = (1..=((n_state * 2) as i32)).map(|x| x as f32).collect();
    let new_v: Vec<f32> = (101..=(100 + (n_state * 2) as i32))
        .map(|x| x as f32)
        .collect();
    cache.append(&new_k, &new_v, 2);

    assert_eq!(cache.seq_len, 2);

    let k0 = cache.k_head(0);
    assert_eq!(k0.len(), 2 * head_dim);
    assert_eq!(k0[0..4], [1.0, 2.0, 3.0, 4.0]);
    assert_eq!(k0[4..8], [9.0, 10.0, 11.0, 12.0]);

    let k1 = cache.k_head(1);
    assert_eq!(k1.len(), 2 * head_dim);
    assert_eq!(k1[0..4], [5.0, 6.0, 7.0, 8.0]);
    assert_eq!(k1[4..8], [13.0, 14.0, 15.0, 16.0]);

    let v0 = cache.v_head(0);
    assert_eq!(v0[0..4], [101.0, 102.0, 103.0, 104.0]);
    assert_eq!(v0[4..8], [109.0, 110.0, 111.0, 112.0]);
}

#[test]
fn test_kv_cache_cow_clone() {
    let n_head = 2;
    let head_dim = 4;
    let capacity = 8;
    let n_state = n_head * head_dim;
    let mut cache = LayerKVCache::new(n_head, head_dim, capacity, 0.0f32);

    let new_k: Vec<f32> = (1..=(n_state as i32)).map(|x| x as f32).collect();
    let new_v: Vec<f32> = (101..=(100 + n_state as i32)).map(|x| x as f32).collect();
    cache.append(&new_k, &new_v, 1);
    assert_eq!(cache.seq_len, 1);

    let mut clone = cache.clone();
    assert_eq!(clone.seq_len, 1);

    assert!(Arc::ptr_eq(&cache.k, &clone.k));
    assert!(Arc::ptr_eq(&cache.v, &clone.v));

    assert_eq!(cache.k_head(0), clone.k_head(0));
    assert_eq!(cache.v_head(0), clone.v_head(0));

    let new_k2: Vec<f32> = (21..=(20 + n_state as i32)).map(|x| x as f32).collect();
    let new_v2: Vec<f32> = (121..=(120 + n_state as i32)).map(|x| x as f32).collect();
    clone.append(&new_k2, &new_v2, 1);

    assert_eq!(clone.seq_len, 2);
    assert_eq!(cache.seq_len, 1);

    assert!(!Arc::ptr_eq(&cache.k, &clone.k));

    assert_eq!(cache.k_head(0), &[1.0, 2.0, 3.0, 4.0]);
}

#[test]
fn test_kv_cache_append_multiple() {
    let n_head = 2;
    let head_dim = 3;
    let capacity = 16;
    let n_state = n_head * head_dim;
    let mut cache = LayerKVCache::new(n_head, head_dim, capacity, 0.0f32);

    for t in 0..4u32 {
        let base = (t * n_state as u32 + 1) as f32;
        let new_k: Vec<f32> = (0..n_state).map(|i| base + i as f32).collect();
        let new_v: Vec<f32> = (0..n_state).map(|i| base + 100.0 + i as f32).collect();
        cache.append(&new_k, &new_v, 1);
        assert_eq!(cache.seq_len, (t + 1) as usize);
    }

    assert_eq!(cache.seq_len, 4);

    let k0 = cache.k_head(0);
    assert_eq!(k0.len(), 4 * head_dim);
    assert_eq!(k0[0..3], [1.0, 2.0, 3.0]);
    assert_eq!(k0[3..6], [7.0, 8.0, 9.0]);
    assert_eq!(k0[6..9], [13.0, 14.0, 15.0]);
    assert_eq!(k0[9..12], [19.0, 20.0, 21.0]);

    let k1 = cache.k_head(1);
    assert_eq!(k1[0..3], [4.0, 5.0, 6.0]);
}

// encode_prompt_text tests

#[test]
fn test_encode_prompt_text_basic() {
    let vocab = vec![
        VocabEntry {
            text: "he".to_string(),
        },
        VocabEntry {
            text: "hello".to_string(),
        },
        VocabEntry {
            text: " ".to_string(),
        },
        VocabEntry {
            text: "world".to_string(),
        },
    ];
    let tokens = encode_prompt_text("hello world", &vocab);
    assert_eq!(tokens, vec![1, 2, 3]);
}

#[test]
fn test_encode_prompt_text_skips_unknown_bytes() {
    let vocab = vec![
        VocabEntry {
            text: "a".to_string(),
        },
        VocabEntry {
            text: "b".to_string(),
        },
    ];
    let tokens = encode_prompt_text("axb", &vocab);
    assert_eq!(tokens, vec![0, 1]);
}

#[test]
fn test_encode_prompt_text_empty() {
    let vocab = vec![VocabEntry {
        text: "a".to_string(),
    }];
    let tokens = encode_prompt_text("", &vocab);
    assert!(tokens.is_empty());
}

// build_prompt tests

#[test]
fn test_build_prompt_without_initial_tokens() {
    let special = SpecialTokens::new(51865);
    let lang = special.language_token("en");
    let prompt = build_prompt(&special, lang, false, &[]);
    assert_eq!(prompt[0], special.sot);
    assert_eq!(prompt[1], lang);
    assert_eq!(prompt[2], special.transcribe);
    assert_eq!(prompt[3], special.no_timestamps);
    assert_eq!(prompt.len(), 4);
}

#[test]
fn test_build_prompt_with_initial_tokens() {
    let special = SpecialTokens::new(51865);
    let lang = special.language_token("en");
    let initial = vec![10u32, 20, 30];
    let prompt = build_prompt(&special, lang, false, &initial);
    assert_eq!(prompt[0], special.sot_prev);
    assert_eq!(prompt[1], 10);
    assert_eq!(prompt[2], 20);
    assert_eq!(prompt[3], 30);
    assert_eq!(prompt[4], special.sot);
    assert_eq!(prompt[5], lang);
    assert_eq!(prompt[6], special.transcribe);
    assert_eq!(prompt[7], special.no_timestamps);
    assert_eq!(prompt.len(), 8);
}

#[test]
fn test_build_prompt_with_timestamps() {
    let special = SpecialTokens::new(51865);
    let lang = special.language_token("en");
    let prompt = build_prompt(&special, lang, true, &[]);
    assert_eq!(prompt.len(), 3);
    assert_eq!(prompt[0], special.sot);
    assert_eq!(prompt[2], special.transcribe);
}

#[test]
fn test_build_prompt_with_previous_tokens() {
    // Simulate previous_tokens being prepended to initial_tokens
    // (as done in decode() when opts.previous_tokens is Some)
    let special = SpecialTokens::new(51865);
    let lang = special.language_token("en");

    let previous = vec![10u32, 20];
    let initial = vec![30u32, 40];

    // Mimic the decode() logic: prepend previous before initial
    let mut all_initial = initial;
    let mut combined = previous;
    combined.append(&mut all_initial);
    let all_initial = combined;

    let prompt = build_prompt(&special, lang, false, &all_initial);
    // Should be: [sot_prev, 10, 20, 30, 40, sot, lang, transcribe, no_timestamps]
    assert_eq!(prompt[0], special.sot_prev);
    assert_eq!(prompt[1], 10);
    assert_eq!(prompt[2], 20);
    assert_eq!(prompt[3], 30);
    assert_eq!(prompt[4], 40);
    assert_eq!(prompt[5], special.sot);
    assert_eq!(prompt[6], lang);
    assert_eq!(prompt[7], special.transcribe);
    assert_eq!(prompt[8], special.no_timestamps);
    assert_eq!(prompt.len(), 9);
}

#[test]
fn test_build_prompt_previous_tokens_only() {
    // Only previous tokens, no initial prompt
    let special = SpecialTokens::new(51865);
    let lang = special.language_token("en");

    let previous = vec![50u32, 60, 70];
    // Mimic decode() logic with no initial_prompt
    let all_initial = previous;

    let prompt = build_prompt(&special, lang, false, &all_initial);
    // Should be: [sot_prev, 50, 60, 70, sot, lang, transcribe, no_timestamps]
    assert_eq!(prompt[0], special.sot_prev);
    assert_eq!(prompt[1], 50);
    assert_eq!(prompt[2], 60);
    assert_eq!(prompt[3], 70);
    assert_eq!(prompt[4], special.sot);
    assert_eq!(prompt.len(), 8);
}

/// Single-precision functions of attention.
fn attn() -> AttnMath<
    f32,
    impl Fn(f32, f32) -> f32,
    impl Fn(f32) -> f32,
    impl Fn(f32) -> f32,
    impl Fn(f32) -> u32,
    impl Fn(u32) -> f32,
> {
    AttnMath::new(
        |a: f32, b: f32| a.max(b),
        |a: f32| a.exp(),
        |a: f32| a.recip(),
        |a: f32| a.to_bits(),
        |b: u32| f32::from_bits(b),
    )
}

/// Single-precision functions of logits; the drawn number is always `uniform`.
fn chooser(uniform: f32) -> Chooser<
    f32,
    impl Fn(f32, f32) -> f32,
    impl Fn(f32) -> f32,
    impl Fn(f32) -> f32,
    impl Fn(f32) -> u32,
    impl Fn(f32, f32) -> bool,
    impl Fn(f32, f32) -> bool,
    impl Fn(u32) -> f32,
    impl Fn() -> f32,
> {
    Chooser {
        math: LogitMath::new(
            |a: f32, b: f32| a.max(b),
            |a: f32| a.exp(),
            |a: f32| a.ln(),
            |a: f32| a.to_bits(),
            |a: f32, b: f32| a >= b,
            |a: f32, b: f32| a < b,
            |b: u32| f32::from_bits(b),
        ),
        uniform: move || uniform,
    }
}

/// Number of tokens of the scripted model.
const VOCAB: usize = 51865;

/// The token that the scripted model prefers behind another one.
fn successor(token: u32) -> u32 {
    match token {
        50258 => 50266,
        50363 => 7,
        7 => 8,
        8 => 9,
        9 => 7,
        20 => 20,
        30 => 50362,
        41 => 42,
        42 => 50370,
        50370 => 50362,
        _ => 50256,
    }
}

/// Logits behind a token: 10 for its successor, 5 for the token 3, else 0.
fn logits_behind(token: u32) -> Vec<f32> {
    let mut logits = vec![0.0f32; VOCAB];
    logits[3] = 5.0;
    logits[successor(token) as usize] = 10.0;
    logits
}

/// Kernels of the scripted model: the hidden state is the number of the token, so all layers add
/// nothing and the last one gives the logits behind it.
fn kernel(op: Op<f32>) -> Result<Vec<f32>, String> {
    match op {
        Op::LayerNorm { x, epsilon, .. } => {
            assert_eq!(epsilon, 1e-5f32.to_bits());
            Ok(x)
        },
        Op::Gelu { x } => Ok(x),
        Op::Linear { x, weight, width, .. } if weight == "decoder.token_embedding.weight" => {
            assert_eq!(width, Some(VOCAB));
            Ok(logits_behind(x[0] as u32))
        },
        Op::Linear { rows, width: Some(w), .. } => Ok(vec![0.0; rows * w]),
        // The feed-forward layer widens its input.
        Op::Linear { x, .. } => Ok(vec![0.0; 4 * x.len()]),
    }
}

fn engine() -> Engine<
    f32,
    impl Fn(f32, f32) -> f32,
    impl Fn(f32) -> f32,
    impl Fn(f32) -> f32,
    impl Fn(f32) -> u32,
    impl Fn(u32) -> f32,
    impl Fn(Op<f32>) -> Result<Vec<f32>, String>,
> {
    Engine { attn: attn(), kernel }
}

fn hparams() -> Hparams {
    Hparams {
        n_vocab: VOCAB,
        n_audio_ctx: 4,
        n_audio_state: 1,
        n_audio_head: 1,
        n_audio_layer: 1,
        n_text_ctx: 448,
        n_text_state: 1,
        n_text_head: 1,
        n_text_layer: 2,
        n_mels: 80,
        ftype: 0,
    }
}

fn tables(name: String) -> Result<Table<f32>, String> {
    match name.as_str() {
        "decoder.token_embedding.weight" => {
            Ok(Table { data: (0..VOCAB).map(|t| t as f32).collect(), rows: VOCAB })
        },
        "decoder.positional_embedding" => Ok(Table { data: vec![0.0; 448], rows: 448 }),
        other => Err(format!("Missing tensor: {other}")),
    }
}

fn scale() -> ScaleMath<impl Fn(usize) -> f32, impl Fn(f32) -> f32, impl Fn(f32) -> f32> {
    ScaleMath {
        count: |n: usize| n as f32,
        sqrt: |a: f32| a.sqrt(),
        recip: |a: f32| a.recip(),
    }
}

fn context() -> ForwardCtx<f32> {
    prepare(&kernel, &tables, &[0.0, 0.0], 2, &hparams(), 1.0).expect("complete model")
}

fn run(opts: &TranscribeOptions<'_>, uniform: f32) -> Result<Decoded<f32>, String> {
    decode(
        &[0.0, 0.0],
        2,
        &hparams(),
        &[],
        opts,
        &engine(),
        &chooser(uniform),
        &tables,
        &scale(),
    )
}

fn tokens_of(d: Result<Decoded<f32>, String>) -> Vec<u32> {
    match d {
        Ok(Decoded::Done(r)) => r.tokens,
        _ => panic!("expected an output"),
    }
}

#[test]
fn greedy_output_follows_the_largest_logits() {
    let opts = TranscribeOptions { no_repeat_ngram_size: 2, ..TranscribeOptions::default() };
    match run(&opts, 0.0) {
        Ok(Decoded::Done(r)) => {
            // Behind 7 8 9 7 the token 8 would repeat a pair; 3 is next best, and ends the output.
            assert_eq!(r.tokens, vec![7, 8, 9, 7, 3]);
            assert_eq!(r.detected_language, Some("ja".to_string()));
            let math = chooser(0.0).math;
            assert_eq!(r.token_probs[0], token_log_prob(&math, &logits_behind(50363), 7));
            assert_eq!(r.token_probs.len(), r.tokens.len());
        },
        _ => panic!("expected an output"),
    }
}

#[test]
fn output_is_bounded() {
    let opts = TranscribeOptions { language: Some("en"), ..TranscribeOptions::default() };
    match run(&opts, 0.0) {
        Ok(Decoded::Done(r)) => {
            assert_eq!(r.tokens.len(), MAX_DECODE_LENGTH);
            assert_eq!(r.detected_language, None);
            assert!(!r.tokens.contains(&50256));
        },
        _ => panic!("expected an output"),
    }
}

#[test]
fn suppressed_tokens_are_not_chosen() {
    let opts = TranscribeOptions { suppress_tokens: Some(&[7, 8]), ..TranscribeOptions::default() };
    assert_eq!(tokens_of(run(&opts, 0.0)), vec![3]);
}

#[test]
fn sampling_draws_by_the_options() {
    let half = 0.5f32.to_bits();
    let opts = TranscribeOptions {
        temperature: half,
        top_k: 1,
        no_repeat_ngram_size: 2,
        ..TranscribeOptions::default()
    };
    assert_eq!(tokens_of(run(&opts, 0.9)), vec![7, 8, 9, 7, 3]);
    let two = TranscribeOptions { top_k: 2, ..opts };
    // The second candidate is 3, behind 3 as well, until the pair would repeat.
    assert_eq!(tokens_of(run(&two, 1.0)), vec![3, 3]);
    let cool = 0.25f32.to_bits();
    let nucleus = TranscribeOptions { temperature: cool, top_k: 0, top_p: half, ..opts };
    assert_eq!(tokens_of(run(&nucleus, 1.0)), vec![7, 8, 9, 7, 3]);
}

#[test]
fn a_beam_search_is_handed_over() {
    let opts = TranscribeOptions {
        beam_width: 5,
        language: Some("de"),
        previous_tokens: Some(&[1, 2]),
        timestamps: true,
        suppress_tokens: Some(&[7, 8]),
        no_repeat_ngram_size: 3,
        ..TranscribeOptions::default()
    };
    match run(&opts, 0.0) {
        Ok(Decoded::Beam(job)) => {
            assert_eq!(job.special, SpecialTokens::new(VOCAB));
            assert_eq!(job.eot_threshold, u32::MAX);
            assert_eq!(job.suppress, vec![7, 8]);
            assert_eq!(job.no_repeat_ngram_size, 3);
            assert_eq!(job.beam_width, 5);
            assert_eq!(job.prompt, vec![50361, 1, 2, 50258, 50261, 50359]);
            assert_eq!(job.kv_capacity, 6 + MAX_DECODE_LENGTH + 4);
            assert_eq!(job.detected_language, None);
        },
        _ => panic!("expected a beam search"),
    }
}

#[test]
fn a_beam_search_without_timestamps_stops_above_the_end_of_text() {
    let opts = TranscribeOptions { beam_width: 2, ..TranscribeOptions::default() };
    match run(&opts, 0.0) {
        Ok(Decoded::Beam(job)) => {
            assert_eq!(job.eot_threshold, 50256);
            assert!(job.suppress.is_empty());
            assert_eq!(job.detected_language, Some("ja".to_string()));
        },
        _ => panic!("expected a beam search"),
    }
}

#[test]
fn timestamps_stay_in_the_output_where_they_are_asked_for() {
    let special = SpecialTokens::new(VOCAB);
    let none = DecodeConstraints { suppress: &[], no_repeat_ngram_size: 0 };
    let ctx = context();
    let run = |threshold: u32| {
        decode_greedy(&[41], 300, &ctx, &engine(), &chooser(0.0), &special, threshold, &none, 448)
            .expect("sound kernels")
            .0
    };
    assert_eq!(run(special.eot), vec![42]);
    assert_eq!(run(u32::MAX), vec![42, 50370, 50362]);
}

#[test]
fn scores_are_scaled_by_the_head_size() {
    assert_eq!(get_scale(&scale(), 64), 0.125f32);
}

#[test]
fn failures_of_kernels_and_tables_are_reported() {
    let broken = |op: Op<f32>| match op {
        Op::Gelu { .. } => Err("no activation".to_string()),
        other => kernel(other),
    };
    let e = Engine { attn: attn(), kernel: broken };
    let opts = TranscribeOptions::default();
    let r = decode(&[0.0], 1, &hparams(), &[], &opts, &e, &chooser(0.0), &tables, &scale());
    assert_eq!(r.err(), Some("no activation".to_string()));
    let none = |name: String| Err::<Table<f32>, String>(format!("Missing tensor: {name}"));
    let r = decode(&[0.0], 1, &hparams(), &[], &opts, &engine(), &chooser(0.0), &none, &scale());
    assert_eq!(r.err(), Some("Missing tensor: decoder.token_embedding.weight".to_string()));
}

#[test]
fn the_first_token_can_signal_the_absence_of_speech() {
    let special = SpecialTokens::new(VOCAB);
    let none = DecodeConstraints { suppress: &[], no_repeat_ngram_size: 0 };
    let ctx = context();
    let e = engine();
    let c = chooser(0.0);
    let sampling = Sampling { temperature: 1.0f32.to_bits(), top_k: 1, top_p: 1.0f32.to_bits() };
    for last in [30u32, 31] {
        let greedy = decode_greedy(&[last], 300, &ctx, &e, &c, &special, 50256, &none, 448);
        assert_eq!(greedy, Ok((vec![], vec![])));
        let sampled =
            decode_sample(&[last], 300, &ctx, &e, &c, &special, 50256, &none, 448, sampling);
        assert_eq!(sampled, Ok((vec![], vec![])));
    }
}

#[test]
fn output_ends_with_the_text_context() {
    let special = SpecialTokens::new(VOCAB);
    let none = DecodeConstraints { suppress: &[], no_repeat_ngram_size: 0 };
    let r = decode_greedy(&[1, 20], 300, &context(), &engine(), &chooser(0.0), &special, 50256, &none, 6)
        .expect("sound kernels");
    assert_eq!(r.0, vec![20; 5]);
}

#[test]
fn the_language_is_the_best_of_its_tokens() {
    let special = SpecialTokens::new(VOCAB);
    let token = detect_language(&context(), &engine(), &chooser(0.0), &special).expect("sound");
    assert_eq!(token, 50266);
    assert_eq!(language_code_from_token(token), "ja");
}

#[test]
fn previous_tokens_precede_the_initial_prompt() {
    let vocab = vec![VocabEntry { text: "a".to_string() }, VocabEntry { text: "b".to_string() }];
    let opts = TranscribeOptions {
        previous_tokens: Some(&[9, 8]),
        initial_prompt: Some("ba"),
        ..TranscribeOptions::default()
    };
    assert_eq!(get_initial_tokens(&opts, &vocab), vec![9, 8, 1, 0]);
    assert!(get_initial_tokens(&TranscribeOptions::default(), &vocab).is_empty());
}

#[test]
fn softmax_adds_up_to_one() {
    assert_eq!(softmax(&attn(), &[2.0, 2.0]), vec![0.5, 0.5]);
    assert_eq!(softmax(&attn(), &[]), Vec::<f32>::new());
}

#[test]
fn attention_weighs_values_by_keys() {
    let out = attend(&attn(), &[1.0], &[3.0, 3.0], &[10.0, 20.0], 2, 1.0);
    assert_eq!(out, vec![15.0]);
    let first = attend(&attn(), &[1.0], &[3.0, 3.0], &[10.0, 20.0], 1, 1.0);
    assert_eq!(first, vec![10.0]);
}

#[test]
fn heads_are_rearranged() {
    let data = [1.0f32, 2.0, 3.0, 4.0, 5.0, 6.0, 7.0, 8.0];
    assert_eq!(to_head_first(&data, 2, 2, 2), vec![1.0, 2.0, 5.0, 6.0, 3.0, 4.0, 7.0, 8.0]);
}

#[test]
fn the_causal_mask_hides_later_positions() {
    let mut kv = LayerKVCache::new(1, 1, 4, 0.0f32);
    kv.append(&[1.0, 1.0], &[10.0, 20.0], 2);
    let mut cfg = CachedSdpaConfig {
        n_head: 1,
        q_len: 2,
        kv_len: 2,
        head_dim: 1,
        past_len: 0,
        causal_mask: true,
    };
    assert_eq!(scaled_dot_product_cached(&attn(), &[1.0, 1.0], &kv, &cfg, 1.0), vec![10.0, 15.0]);
    cfg.causal_mask = false;
    assert_eq!(scaled_dot_product_cached(&attn(), &[1.0, 1.0], &kv, &cfg, 1.0), vec![15.0, 15.0]);
}

#[test]
fn masked_rows_do_not_depend_on_later_positions() {
    let cfg = CachedSdpaConfig {
        n_head: 1,
        q_len: 2,
        kv_len: 3,
        head_dim: 1,
        past_len: 1,
        causal_mask: true,
    };
    let mut a = LayerKVCache::new(1, 1, 4, 0.0f32);
    a.append(&[1.0, 2.0, 3.0], &[10.0, 20.0, 30.0], 3);
    let mut b = LayerKVCache::new(1, 1, 4, 0.0f32);
    b.append(&[1.0, 2.0, -9.0], &[10.0, 20.0, 77.0], 3);
    let x = scaled_dot_product_cached(&attn(), &[0.5, 0.5], &a, &cfg, 1.0);
    let y = scaled_dot_product_cached(&attn(), &[0.5, 0.5], &b, &cfg, 1.0);
    assert_eq!(x[0], y[0]);
    assert!(x[1] != y[1]);
}

#[test]
fn several_masked_queries_see_no_more_than_the_cache_holds() {
    let mut kv = LayerKVCache::new(1, 1, 4, 0.0f32);
    kv.append(&[1.0, 1.0], &[10.0, 20.0], 2);
    let mut cfg = CachedSdpaConfig {
        n_head: 1,
        q_len: 2,
        kv_len: 2,
        head_dim: 1,
        past_len: 9,
        causal_mask: true,
    };
    assert_eq!(scaled_dot_product_cached(&attn(), &[1.0, 1.0], &kv, &cfg, 1.0), vec![15.0, 15.0]);
    cfg.causal_mask = false;
    cfg.past_len = usize::MAX;
    assert_eq!(scaled_dot_product_cached(&attn(), &[1.0, 1.0], &kv, &cfg, 1.0), vec![15.0, 15.0]);
}

#[test]
fn cross_attention_sees_every_position() {
    let out = scaled_dot_product_flat(
        &attn(),
        &[0.0, 0.0],
        &[1.0, 2.0, 3.0, 4.0],
        &[1.0, 3.0, 5.0, 7.0],
        2,
        1,
        2,
        1,
        1.0,
    );
    assert_eq!(out, vec![2.0, 6.0]);
}

#[test]
fn positions_can_be_appended_step_by_step() {
    let keys = [1.0f32, 2.0, 3.0, 4.0];
    let values = [5.0f32, 6.0, 7.0, 8.0];
    let mut at_once = LayerKVCache::new(2, 1, 3, 0.0f32);
    at_once.append(&keys, &values, 2);
    let mut stepwise = LayerKVCache::new(2, 1, 3, 0.0f32);
    stepwise.append(&keys[..2], &values[..2], 1);
    stepwise.append(&keys[2..], &values[2..], 1);
    for h in 0..2 {
        assert_eq!(at_once.k_head(h), stepwise.k_head(h));
        assert_eq!(at_once.v_head(h), stepwise.v_head(h));
    }
}

#[test]
fn embeddings_of_token_and_position_are_added() {
    let mut ctx = context();
    ctx.pos_emb[5] = 0.5;
    assert_eq!(embed(&ctx, 0.0, &[7, 99999], 5), vec![7.5, 0.0]);
    assert_eq!(embed(&ctx, 0.0, &[7], 448), vec![7.0]);
}

#[test]
fn a_forward_pass_fills_the_caches() {
    let ctx = context();
    let mut kv = fresh_caches(&ctx, 8, 0.0f32);
    assert_eq!(kv.len(), 2);
    let logits = forward(&[1, 7], 0, &mut kv, &ctx, &engine(), true).expect("sound kernels");
    assert_eq!(logits, logits_behind(7));
    assert_eq!(logits.len(), ctx.n_vocab);
    for layer in &kv {
        assert_eq!(layer.seq_len, 2);
    }
}

#[test]
fn weights_of_blocks_have_names() {
    assert_eq!(get_block_name(12, ".attn.out.bias"), "decoder.blocks.12.attn.out.bias");
}

#[test]
fn longest_entries_are_taken_byte_by_byte() {
    let vocab = vec![
        VocabEntry { text: "".to_string() },
        VocabEntry { text: "é".to_string() },
        VocabEntry { text: "é!".to_string() },
        VocabEntry { text: "é!".to_string() },
    ];
    assert_eq!(encode_prompt_text("éxé!é", &vocab), vec![1, 2, 1]);
}

#[test]
fn prompt_text_survives_encoding() {
    let vocab: Vec<VocabEntry> =
        ["a", "n", "an", "ana", "ß"].iter().map(|t| VocabEntry { text: t.to_string() }).collect();
    let text = "banßanan";
    assert_eq!(tokenizer::decode(&encode_prompt_text(&text[1..], &vocab), &vocab), text[1..]);
    assert_eq!(tokenizer::decode(&encode_prompt_text(text, &vocab), &vocab), text[1..]);
}

/// Whether a name is that of a decoder weight of the scripted model.
fn is_known(name: &str) -> bool {
    const PARTS: [&str; 24] = [
        "attn_ln.weight",
        "attn_ln.bias",
        "attn.query.weight",
        "attn.query.bias",
        "attn.key.weight",
        "attn.value.weight",
        "attn.value.bias",
        "attn.out.weight",
        "attn.out.bias",
        "cross_attn_ln.weight",
        "cross_attn_ln.bias",
        "cross_attn.query.weight",
        "cross_attn.query.bias",
        "cross_attn.key.weight",
        "cross_attn.value.weight",
        "cross_attn.value.bias",
        "cross_attn.out.weight",
        "cross_attn.out.bias",
        "mlp_ln.weight",
        "mlp_ln.bias",
        "mlp.0.weight",
        "mlp.0.bias",
        "mlp.2.weight",
        "mlp.2.bias",
    ];
    ["decoder.ln.weight", "decoder.ln.bias", "decoder.token_embedding.weight"].contains(&name)
        || (0..2).any(|l| PARTS.iter().any(|p| name == format!("decoder.blocks.{l}.{p}")))
}

/// Kernels that look weights up by name: they fail on the name `missing`, and on every name that
/// the model does not hold.
fn strict(missing: &'static str) -> impl Fn(Op<f32>) -> Result<Vec<f32>, String> {
    move |op: Op<f32>| {
        let names = match &op {
            Op::LayerNorm { weight, bias, .. } => vec![weight.clone(), bias.clone()],
            Op::Linear { weight, bias, .. } => {
                let mut names = vec![weight.clone()];
                names.extend(bias.clone());
                names
            },
            Op::Gelu { .. } => vec![],
        };
        for name in names {
            if name == missing || !is_known(&name) {
                return Err(format!("Missing tensor: {name}"));
            }
        }
        kernel(op)
    }
}

#[test]
fn decoding_asks_for_the_weights_of_the_model_alone() {
    let e = Engine { attn: attn(), kernel: strict("") };
    let ctx = prepare(&e.kernel, &tables, &[0.0, 0.0], 2, &hparams(), 1.0).expect("complete model");
    let mut kv = fresh_caches(&ctx, 8, 0.0f32);
    let logits = forward(&[1, 7], 0, &mut kv, &ctx, &e, true).expect("complete model");
    assert_eq!(logits, logits_behind(7));
    let opts = TranscribeOptions { no_repeat_ngram_size: 2, ..TranscribeOptions::default() };
    let r = decode(
        &[0.0, 0.0],
        2,
        &hparams(),
        &[],
        &opts,
        &e,
        &chooser(0.0),
        &tables,
        &scale(),
    );
    assert_eq!(tokens_of(r), vec![7, 8, 9, 7, 3]);
}

#[test]
fn a_failed_pass_reports_its_operation_and_keeps_later_caches() {
    let ctx = context();
    let cases = [
        ("decoder.blocks.0.attn_ln.bias", [0, 0]),
        ("decoder.blocks.0.attn.value.weight", [0, 0]),
        ("decoder.blocks.0.attn.out.weight", [2, 0]),
        ("decoder.blocks.0.mlp.2.bias", [2, 0]),
        ("decoder.blocks.1.attn.key.weight", [2, 0]),
        ("decoder.blocks.1.cross_attn.query.weight", [2, 2]),
        ("decoder.blocks.1.mlp.0.weight", [2, 2]),
        ("decoder.ln.weight", [2, 2]),
        ("decoder.token_embedding.weight", [2, 2]),
    ];
    for (missing, filled) in cases {
        let e = Engine { attn: attn(), kernel: strict(missing) };
        let mut kv = fresh_caches(&ctx, 8, 0.0f32);
        let r = forward(&[1, 7], 0, &mut kv, &ctx, &e, true);
        assert_eq!(r, Err(format!("Missing tensor: {missing}")));
        assert_eq!([kv[0].seq_len, kv[1].seq_len], filled);
    }
}

#[test]
fn preparation_reports_the_first_missing_weight() {
    for missing in
        ["decoder.blocks.0.cross_attn.key.weight", "decoder.blocks.1.cross_attn.value.bias"]
    {
        let r = prepare(&strict(missing), &tables, &[0.0, 0.0], 2, &hparams(), 1.0);
        assert_eq!(r.err(), Some(format!("Missing tensor: {missing}")));
    }
    let no_positions = |name: String| match name.as_str() {
        "decoder.positional_embedding" => Err("no positions".to_string()),
        _ => tables(name),
    };
    let r = prepare(&strict(""), &no_positions, &[0.0, 0.0], 2, &hparams(), 1.0);
    assert_eq!(r.err(), Some("no positions".to_string()));
}

#[test]
fn a_run_can_break_off_behind_some_tokens() {
    let special = SpecialTokens::new(VOCAB);
    let none = DecodeConstraints { suppress: &[], no_repeat_ngram_size: 0 };
    let broken = |op: Op<f32>| match op {
        Op::Linear { x, weight, .. } if weight.contains("token_embedding") && x[0] == 9.0 => {
            Err("no logits".to_string())
        },
        other => kernel(other),
    };
    let e = Engine { attn: attn(), kernel: broken };
    let r = decode_greedy(&[7], 300, &context(), &e, &chooser(0.0), &special, 50256, &none, 448);
    assert_eq!(r, Err("no logits".to_string()));
}
