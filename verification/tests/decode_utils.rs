use oxiwhisper::decode_utils::{
    apply_no_repeat_ngram, apply_suppress_tokens, argmax, collect_ngrams, get_threshold,
    is_stop_token, pick_language, top_k_log_probs,
};
use oxiwhisper::probability::{
    argmax_with_log_prob, log_softmax, log_sum, normalized_score, sample_token, token_log_prob,
    LogitMath,
};
use oxiwhisper::tokenizer::SpecialTokens;
use rand::RngExt;

/// Single-precision arithmetic.
fn math() -> LogitMath<
    f32,
    impl Fn(f32, f32) -> f32,
    impl Fn(f32) -> f32,
    impl Fn(f32) -> f32,
    impl Fn(f32) -> u32,
    impl Fn(f32, f32) -> bool,
    impl Fn(f32, f32) -> bool,
    impl Fn(u32) -> f32,
> {
    LogitMath::new(
        |a: f32, b: f32| a.max(b),
        |a: f32| a.exp(),
        |a: f32| a.ln(),
        |a: f32| a.to_bits(),
        |a: f32, b: f32| a >= b,
        |a: f32, b: f32| a < b,
        |b: u32| f32::from_bits(b),
    )
}

fn bits(x: &[f32]) -> Vec<u32> {
    x.iter().map(|v| v.to_bits()).collect()
}

fn numbers(b: &[u32]) -> Vec<f32> {
    b.iter().map(|v| f32::from_bits(*v)).collect()
}

fn top_pairs(log_probs: &[f32], k: usize) -> Vec<(f32, u32)> {
    top_k_log_probs(&bits(log_probs), k)
        .into_iter()
        .map(|(b, t)| (f32::from_bits(b), t))
        .collect()
}

fn draw(logits: &[f32], temperature: f32, top_k: usize, top_p: f32, rng: &mut impl rand::Rng) -> u32 {
    sample_token(&math(), logits, temperature, top_k, top_p, rng.random::<f32>())
}

fn suppress(logits: &mut Vec<f32>, tokens: &[u32]) {
    let mut b = bits(logits);
    apply_suppress_tokens(&mut b, tokens);
    *logits = numbers(&b);
}

fn block_ngrams(logits: &mut Vec<f32>, tokens: &[u32], n: usize) {
    let mut b = bits(logits);
    apply_no_repeat_ngram(&mut b, tokens, n);
    *logits = numbers(&b);
}

#[test]
fn test_log_softmax_sums_to_one() {
    let v = [1.0f32, 2.0, 3.0];
    let lp = log_softmax(&math(), &v);
    let sum: f32 = lp.iter().map(|x| x.exp()).sum();
    assert!((sum - 1.0).abs() < 1e-6);
    assert!(lp[2] > lp[1] && lp[1] > lp[0]);
}

#[test]
fn test_log_softmax_uniform() {
    let v = [0.0f32; 4];
    let lp = log_softmax(&math(), &v);
    let expected = -4.0f32.ln();
    for &x in &lp {
        assert!((x - expected).abs() < 1e-6);
    }
}

#[test]
fn test_top_k_log_probs_ordering() {
    let lp = log_softmax(&math(), &[1.0f32, 3.0, 2.0]);
    let top2 = top_pairs(&lp, 2);
    assert_eq!(top2.len(), 2);
    assert_eq!(top2[0].1, 1); // token 1 has highest logit
    assert_eq!(top2[1].1, 2); // token 2 is second
    assert!(top2[0].0 > top2[1].0);
}

#[test]
fn test_top_k_truncation() {
    let lp = log_softmax(&math(), &[1.0f32, 2.0, 3.0, 4.0, 5.0]);
    let top3 = top_pairs(&lp, 3);
    assert_eq!(top3.len(), 3);
    assert_eq!(top3[0].1, 4); // highest logit at index 4
}

#[test]
fn test_top_k_clamps_to_vocab_size() {
    let lp = log_softmax(&math(), &[1.0f32, 2.0]);
    let top5 = top_pairs(&lp, 5); // k > vocab size
    assert_eq!(top5.len(), 2);
}

#[test]
fn test_sample_token_returns_valid_index() {
    let logits = vec![1.0f32, 2.0, 3.0, 4.0, 5.0];
    let mut rng = rand::rng();
    for _ in 0..50 {
        let tok = draw(&logits, 1.0, 0, 1.0, &mut rng);
        assert!((tok as usize) < logits.len());
    }
}

#[test]
fn test_sample_token_top_k_restricts_range() {
    // With top_k=1 we always get the argmax token.
    let logits = vec![1.0f32, 2.0, 100.0, 1.0]; // token 2 dominates
    let mut rng = rand::rng();
    for _ in 0..20 {
        let tok = draw(&logits, 1.0, 1, 1.0, &mut rng);
        assert_eq!(tok, 2);
    }
}

#[test]
fn test_sample_token_low_temperature_picks_best() {
    // Very low temperature -> near-deterministic argmax behaviour.
    let logits = vec![1.0f32, 2.0, 50.0, 1.0];
    let mut rng = rand::rng();
    for _ in 0..20 {
        let tok = draw(&logits, 0.01, 0, 1.0, &mut rng);
        assert_eq!(tok, 2);
    }
}

#[test]
fn test_sample_token_top_p_nucleus() {
    // With top_p very small only the highest-probability token survives.
    let logits = vec![1.0f32, 2.0, 100.0, 1.0]; // token 2 ~ prob 1.0 after softmax
    let mut rng = rand::rng();
    for _ in 0..20 {
        let tok = draw(&logits, 1.0, 0, 0.01, &mut rng);
        assert_eq!(tok, 2);
    }
}

// apply_suppress_tokens tests

#[test]
fn test_suppress_tokens_sets_neg_infinity() {
    let mut logits = vec![1.0f32, 2.0, 3.0, 4.0, 5.0];
    suppress(&mut logits, &[1, 3]);
    assert_eq!(logits[0], 1.0);
    assert_eq!(logits[1], f32::NEG_INFINITY);
    assert_eq!(logits[2], 3.0);
    assert_eq!(logits[3], f32::NEG_INFINITY);
    assert_eq!(logits[4], 5.0);
}

#[test]
fn test_suppress_tokens_out_of_range_ignored() {
    let mut logits = vec![1.0f32, 2.0, 3.0];
    suppress(&mut logits, &[100]);
    assert_eq!(logits, vec![1.0, 2.0, 3.0]);
}

#[test]
fn test_suppress_tokens_empty() {
    let mut logits = vec![1.0f32, 2.0, 3.0];
    suppress(&mut logits, &[]);
    assert_eq!(logits, vec![1.0, 2.0, 3.0]);
}

// No-repeat-ngram tests

#[test]
fn test_collect_ngrams() {
    let tokens = vec![1, 2, 3, 4, 5];
    let ngrams = collect_ngrams(&tokens, 3);
    assert_eq!(ngrams.len(), 3);
    assert_eq!(ngrams[0], vec![1, 2, 3]);
    assert_eq!(ngrams[1], vec![2, 3, 4]);
    assert_eq!(ngrams[2], vec![3, 4, 5]);
}

#[test]
fn test_collect_ngrams_too_short() {
    let tokens = vec![1, 2];
    let ngrams = collect_ngrams(&tokens, 3);
    assert!(ngrams.is_empty());
}

#[test]
fn test_collect_ngrams_disabled() {
    let tokens = vec![1, 2, 3];
    let ngrams = collect_ngrams(&tokens, 0);
    assert!(ngrams.is_empty());
}

#[test]
fn test_no_repeat_ngram_blocks_repetition() {
    let tokens = vec![1u32, 2, 3, 1, 2];
    let mut logits = vec![0.0f32; 5];
    block_ngrams(&mut logits, &tokens, 3);
    assert_eq!(logits[3], f32::NEG_INFINITY);
    assert_eq!(logits[0], 0.0);
    assert_eq!(logits[1], 0.0);
    assert_eq!(logits[2], 0.0);
    assert_eq!(logits[4], 0.0);
}

#[test]
fn test_no_repeat_ngram_disabled() {
    let tokens = vec![1u32, 2, 3, 1, 2];
    let mut logits = vec![1.0f32; 5];
    let original = logits.clone();
    block_ngrams(&mut logits, &tokens, 0);
    assert_eq!(logits, original);
}

#[test]
fn test_no_repeat_ngram_too_short() {
    let tokens = vec![1u32];
    let mut logits = vec![1.0f32; 5];
    let original = logits.clone();
    block_ngrams(&mut logits, &tokens, 3);
    assert_eq!(logits, original);
}

// log_softmax additional tests

#[test]
fn test_log_softmax_numerical_stability() {
    // Very large inputs should not produce NaN thanks to max-subtraction.
    // Use values that differ enough to be distinguishable in f32.
    let v = [1000.0_f32, 999.0, 998.0];
    let lp = log_softmax(&math(), &v);
    for (i, &x) in lp.iter().enumerate() {
        assert!(
            x.is_finite(),
            "log_softmax should be numerically stable, but index {i} = {x}"
        );
    }
    // Sum of exp(log_probs) should still be ~1.0
    let sum: f32 = lp.iter().map(|x| x.exp()).sum();
    assert!(
        (sum - 1.0).abs() < 1e-3,
        "exp of log_softmax should sum to ~1.0, got {sum}"
    );

    // Also test with extreme uniform values — all identical very large numbers
    let v_extreme = [1e38_f32; 4];
    let lp_extreme = log_softmax(&math(), &v_extreme);
    for (i, &x) in lp_extreme.iter().enumerate() {
        assert!(
            x.is_finite(),
            "log_softmax with extreme uniform inputs: index {i} = {x}"
        );
    }
}

#[test]
fn test_log_softmax_uniform_outputs_log_one_over_n() {
    // Equal inputs produce equal outputs = log(1/n)
    let n = 7;
    let v = vec![5.0_f32; n];
    let lp = log_softmax(&math(), &v);
    let expected = -(n as f32).ln();
    for (i, &x) in lp.iter().enumerate() {
        assert!(
            (x - expected).abs() < 1e-5,
            "uniform input: index {i} = {x}, expected {expected}"
        );
    }
}

// top_k_log_probs additional tests

#[test]
fn test_top_k_log_probs_correct_order() {
    // Verify top-k returns highest values first, in descending order
    let lp = vec![-3.0, -1.0, -5.0, -0.5, -2.0];
    let top3 = top_pairs(&lp, 3);
    assert_eq!(top3.len(), 3);
    // Highest: -0.5 (idx 3), then -1.0 (idx 1), then -2.0 (idx 4)
    assert_eq!(top3[0].1, 3);
    assert_eq!(top3[1].1, 1);
    assert_eq!(top3[2].1, 4);
    // Values must be descending
    assert!(top3[0].0 >= top3[1].0);
    assert!(top3[1].0 >= top3[2].0);
}

#[test]
fn test_top_k_larger_than_vocab() {
    // k > logits.len() should return all elements
    let lp = vec![-1.0, -2.0, -3.0];
    let top10 = top_pairs(&lp, 10);
    assert_eq!(top10.len(), 3, "should return all when k > len");
    // Should still be sorted descending
    assert!(top10[0].0 >= top10[1].0);
    assert!(top10[1].0 >= top10[2].0);
}

// argmax_with_log_prob tests

#[test]
fn test_argmax_with_log_prob_single_element() {
    let logits = vec![42.0_f32];
    let (idx, lp) = argmax_with_log_prob(&math(), &logits);
    assert_eq!(idx, 0, "single element should return index 0");
    // log_softmax of a single element is log(1.0) = 0.0
    assert!(
        lp.abs() < 1e-5,
        "single element log_prob should be ~0.0, got {lp}"
    );
}

#[test]
fn test_argmax_with_log_prob_picks_max() {
    let logits = vec![1.0, 5.0, 3.0, 2.0];
    let (idx, lp) = argmax_with_log_prob(&math(), &logits);
    assert_eq!(idx, 1, "should pick index of max logit");
    assert!(lp < 0.0, "log_prob should be negative");
    assert!(lp.is_finite(), "log_prob should be finite");
}

// token_log_prob tests

#[test]
fn test_token_log_prob_out_of_range() {
    let logits = vec![1.0, 2.0, 3.0];
    let lp = token_log_prob(&math(), &logits, 100); // token ID way beyond logits length
    assert_eq!(
        lp,
        f32::NEG_INFINITY,
        "out-of-range token should return NEG_INFINITY"
    );
}

#[test]
fn test_token_log_prob_valid_range() {
    let logits = vec![1.0, 2.0, 3.0];
    let lp = token_log_prob(&math(), &logits, 2); // token with highest logit
    assert!(lp.is_finite(), "valid token log_prob should be finite");
    assert!(lp < 0.0, "log_prob should be negative (got {lp})");
    // Token 2 has highest logit, so its log_prob should be the highest
    let lp0 = token_log_prob(&math(), &logits, 0);
    let lp1 = token_log_prob(&math(), &logits, 1);
    assert!(lp > lp1, "token 2 should have higher log_prob than token 1");
    assert!(
        lp1 > lp0,
        "token 1 should have higher log_prob than token 0"
    );
}

#[test]
fn the_last_of_the_largest_logits_wins() {
    assert_eq!(argmax(&bits(&[1.0, 3.0, 3.0, 2.0])), 2);
    assert_eq!(argmax(&bits(&[-0.0, 0.0])), 1);
    assert_eq!(argmax(&bits(&[0.0, -0.0])), 1);
    assert_eq!(argmax(&bits(&[-1.0, -2.0, f32::NEG_INFINITY])), 0);
    assert_eq!(argmax(&[]), 0);
}

#[test]
fn a_logit_that_is_no_number_counts_as_equal() {
    assert_eq!(argmax(&bits(&[5.0, f32::NAN, 1.0])), 2);
    assert_eq!(argmax(&bits(&[1.0, f32::NAN])), 1);
    assert_eq!(argmax(&bits(&[5.0, 1.0])), 0);
}

#[test]
fn languages_are_picked_among_their_tokens() {
    let mut logits = vec![0.0f32; 51865];
    logits[10] = 9.0;
    logits[50358] = 8.0;
    logits[50266] = 3.0;
    assert_eq!(pick_language(&bits(&logits)), 50266);
    assert_eq!(pick_language(&bits(&[1.0; 100])), 50259);
    assert_eq!(pick_language(&bits(&[1.0; 50259])), 50259);
    logits.truncate(50262);
    assert_eq!(pick_language(&bits(&logits)), 50261);
}

#[test]
fn without_timestamps_every_token_from_the_end_of_text_on_stops() {
    let special = SpecialTokens::new(51865);
    assert_eq!(get_threshold(false, &special), special.eot);
    for token in [special.eot, 50257, special.no_speech, 50363, 50364, 51864, u32::MAX] {
        assert!(is_stop_token(token, special.eot, &special));
    }
    assert!(!is_stop_token(50255, special.eot, &special));
    assert!(!is_stop_token(0, special.eot, &special));
}

#[test]
fn with_timestamps_only_the_end_of_text_stops() {
    let special = SpecialTokens::new(51865);
    let threshold = get_threshold(true, &special);
    assert!(threshold != special.eot);
    assert!(is_stop_token(special.eot, threshold, &special));
    for token in [0, 50255, 50257, special.no_speech, 50363, 50364, 51864] {
        assert!(!is_stop_token(token, threshold, &special));
    }
}

#[test]
fn the_sum_of_exponentials_is_taken_around_the_maximum() {
    assert_eq!(log_sum(&math(), &[0.0, 0.0]), 2.0f32.ln());
    assert_eq!(log_sum(&math(), &[100.0]), 100.0);
    assert_eq!(log_softmax(&math(), &[3.0, 3.0]), vec![3.0 - (3.0 + 2.0f32.ln()); 2]);
}

#[test]
fn scores_are_divided_by_a_power_of_the_length() {
    let score = |len: usize, score: f32| {
        normalized_score(
            len,
            score,
            &|b: u32| f32::from_bits(b),
            &|n: usize| n as f32,
            &|a: f32, b: f32| a.powf(b),
        )
    };
    assert_eq!(score(0, -2.0), -2.0);
    assert_eq!(score(1, -2.0), -2.0);
    assert_eq!(score(32, -8.0), -8.0 / 32.0f32.powf(0.6));
}

#[test]
fn a_drawn_number_selects_by_share() {
    let logits = [0.0f32, 0.0, 0.0, 0.0];
    let at = |uniform: f32| sample_token(&math(), &logits, 1.0, 0, 1.0, uniform);
    assert_eq!(at(0.0), 0);
    assert_eq!(at(0.25), 0);
    assert_eq!(at(0.26), 1);
    assert_eq!(at(0.75), 2);
    assert_eq!(at(0.99), 3);
    assert_eq!(at(1.5), 3);
    assert_eq!(sample_token(&math(), &[], 1.0, 0, 1.0, 0.5), 0);
}

#[test]
fn filters_leave_the_best_candidates() {
    let logits = [0.0f32, 2.0, 1.0, 3.0];
    assert_eq!(sample_token(&math(), &logits, 1.0, 2, 1.0, 1.0), 1);
    assert_eq!(sample_token(&math(), &logits, 1.0, 3, 1.0, 1.0), 2);
    assert_eq!(sample_token(&math(), &logits, 1.0, 0, 0.6, 1.0), 3);
    assert_eq!(sample_token(&math(), &logits, 1.0, 0, 0.7, 1.0), 1);
    assert_eq!(sample_token(&math(), &logits, 1.0, 9, 1.0, 1.0), 0);
}

#[test]
fn a_temperature_of_zero_takes_the_best() {
    assert_eq!(sample_token(&math(), &[1.0, 1.5, 1.4], 0.0, 0, 1.0, 0.9), 1);
}

#[test]
fn no_token_left_out_is_better() {
    let log_probs = [-4.0f32, -1.0, -3.0, -1.0, -2.0];
    assert_eq!(top_pairs(&log_probs, 3), vec![(-1.0, 1), (-1.0, 3), (-2.0, 4)]);
    assert!(top_pairs(&log_probs, 0).is_empty());
}

#[test]
fn single_tokens_repeat_as_one_grams() {
    let mut logits = vec![1.0f32; 4];
    block_ngrams(&mut logits, &[2, 0], 1);
    assert_eq!(logits, vec![f32::NEG_INFINITY, 1.0, f32::NEG_INFINITY, 1.0]);
}

#[test]
fn blocked_tokens_leave_every_ngram_distinct() {
    let mut tokens = vec![1u32, 2];
    for _ in 0..4 {
        let mut logits = vec![0.0f32, 5.0, 4.0];
        block_ngrams(&mut logits, &tokens, 2);
        tokens.push(argmax(&bits(&logits)));
    }
    assert_eq!(tokens, vec![1, 2, 1, 1, 0, 1]);
    let grams = collect_ngrams(&tokens, 2);
    for (i, a) in grams.iter().enumerate() {
        assert!(!grams[..i].contains(a), "{a:?} occurs twice in {tokens:?}");
    }
}
