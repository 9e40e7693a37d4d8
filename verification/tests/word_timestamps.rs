use oxiwhisper::dtw::align_tokens_dtw;
use oxiwhisper::mel::MelMath;
use oxiwhisper::model::VocabEntry;
use oxiwhisper::types::{OxiWhisperError, TranscribeOptions};
use oxiwhisper::word_timestamps::{
    build_word_timed_transcript, transcribe_words_impl, AlignedDecode, Sound, Stages,
    WordTimedTranscript,
};

fn make_decode_result(
    tokens: Vec<u32>,
    token_probs: Vec<f32>,
    cross_attention: Option<Vec<f32>>,
    enc_len: usize,
    no_speech_prob: f32,
) -> AlignedDecode<f32> {
    AlignedDecode {
        tokens,
        token_probs,
        detected_language: None,
        cross_attention,
        enc_len,
        no_speech_prob,
    }
}

fn tiny_vocab() -> Vec<VocabEntry> {
    // Indices 0..4 = text tokens; index 4 = special
    ["hello", " world", "foo", "bar", "<|eot|>"]
        .iter()
        .map(|t| VocabEntry { text: t.to_string() })
        .collect()
}

fn align(w: Vec<f32>, n: usize, frames: usize, hop: usize, rate: usize) -> Vec<(f32, f32)> {
    align_tokens_dtw(
        &w,
        n,
        frames,
        hop,
        rate,
        &|x: f32| x.to_bits(),
        &|n: usize| n as f32,
        &|a: f32, b: f32| a.max(b),
    )
}

fn transcript(
    dr: &AlignedDecode<f32>,
    vocab: &[VocabEntry],
    language: Option<String>,
) -> WordTimedTranscript<f32> {
    build_word_timed_transcript(dr, vocab, language, &align, 0.0, &|n: usize| n as f32)
}

/// Transcribes one second of silence with a scripted encoder and decoder.
fn words(
    opts: &TranscribeOptions<'_>,
    encoded: Result<f32, String>,
    decoded: Result<Vec<u32>, String>,
) -> Result<WordTimedTranscript<f32>, OxiWhisperError> {
    let audio = vec![0.0f32; 1600];
    let filters = vec![0.0f32; 80 * 201];
    let math = MelMath::new(
        |b: u32| f32::from_bits(b),
        |n: usize| n as f32,
        |a: f32| a.cos(),
        |w: Vec<f32>| w.into_iter().map(|x| (x, 0.0)).collect::<Vec<(f32, f32)>>(),
        |a: f32, b: f32| a.max(b),
        |a: f32| a.log10(),
    );
    let stages = Stages {
        encode: move |mel: Vec<f32>, n_mels: usize, n_frames: usize| {
            assert_eq!((mel.len(), n_mels, n_frames), (80 * 11, 80, 11));
            encoded.clone()
        },
        decode: move |x: f32, o: TranscribeOptions<'_>| {
            assert!(o.word_timestamps);
            let tokens = decoded.clone()?;
            let n = tokens.len();
            let mut d = make_decode_result(tokens, vec![x; n], Some(vec![0.5; 2 * n]), 2, 0.25);
            d.detected_language = Some("fr".to_string());
            Ok::<AlignedDecode<f32>, String>(d)
        },
    };
    let sound = Sound { audio: &audio, mel_filters: &filters };
    transcribe_words_impl(
        &sound,
        &math,
        opts,
        80,
        &tiny_vocab(),
        &stages,
        &align,
    )
}

#[test]
fn test_build_no_cross_attention_returns_text_only() {
    let vocab = tiny_vocab();
    let dr = make_decode_result(vec![0, 1], vec![-0.1, -0.2], None, 0, 0.1);
    let wtt = transcript(&dr, &vocab, Some("en".into()));
    assert_eq!(wtt.text, "hello world");
    assert!(
        wtt.words.is_empty(),
        "words should be empty without cross_attention"
    );
    assert_eq!(wtt.language, Some("en".into()));
    assert!((wtt.no_speech_prob - 0.1).abs() < 1e-6);
}

#[test]
fn test_build_empty_tokens_returns_empty() {
    let vocab = tiny_vocab();
    let attn = vec![0.5f32; 4]; // 1 token × 4 enc frames (would never reach this path)
    let dr = make_decode_result(vec![], vec![], Some(attn), 4, 0.05);
    let wtt = transcript(&dr, &vocab, None);
    assert!(wtt.words.is_empty());
    assert_eq!(wtt.text, "");
}

#[test]
fn test_build_with_attention_produces_words() {
    let vocab = tiny_vocab();
    // 2 tokens ("hello", " world"), 8 encoder frames
    // attention rows: each row sums to ~1 and peaks at different frames
    let n_tokens = 2;
    let enc_frames = 8;
    let mut attn = vec![0.0f32; n_tokens * enc_frames];
    // token 0 peaks at frame 1, token 1 peaks at frame 5
    attn[1] = 0.8;
    for v in attn[..enc_frames].iter_mut() {
        if *v < 0.5 {
            *v += 0.025;
        }
    }
    attn[enc_frames + 5] = 0.8;
    for v in attn[enc_frames..2 * enc_frames].iter_mut() {
        if *v < 0.5 {
            *v += 0.025;
        }
    }
    let dr = make_decode_result(vec![0, 1], vec![-0.1, -0.2], Some(attn), enc_frames, 0.02);
    let wtt = transcript(&dr, &vocab, Some("en".into()));
    // We don't assert exact timing, only structural properties.
    assert!(!wtt.words.is_empty(), "should produce word segments");
    for w in &wtt.words {
        assert!(w.start <= w.end, "start <= end invariant: {:?}", w);
        assert!(w.start >= 0.0, "start must be non-negative");
    }
    // Monotonic non-decreasing starts
    let starts: Vec<f32> = wtt.words.iter().map(|w| w.start).collect();
    for pair in starts.windows(2) {
        assert!(
            pair[0] <= pair[1],
            "word starts must be non-decreasing: {pair:?}"
        );
    }
}

#[test]
fn test_special_tokens_stripped_from_words() {
    let vocab = tiny_vocab();
    // token 4 is <|eot|> — should not appear in words
    let n_tokens = 2;
    let enc_frames = 4;
    let mut attn = vec![0.125f32; n_tokens * enc_frames];
    attn[0] = 0.7; // token 0 peaks at frame 0
    attn[enc_frames + 2] = 0.7; // token 1 (special) peaks at frame 2
    let dr = make_decode_result(vec![0, 4], vec![-0.1, -0.5], Some(attn), enc_frames, 0.01);
    let wtt = transcript(&dr, &vocab, None);
    for w in &wtt.words {
        assert!(
            !w.word.starts_with("<|"),
            "special tokens must be stripped: {:?}",
            w
        );
    }
}

#[test]
fn test_transcribe_words_impl_rejects_beam() {
    let opts = TranscribeOptions {
        beam_width: 2,
        word_timestamps: true,
        ..TranscribeOptions::default()
    };
    let err_msg = match words(&opts, Ok(0.0), Ok(vec![])) {
        Err(OxiWhisperError::ConfigError(m)) => m,
        other => panic!("unexpected {:?}", other.map(|t| t.text)),
    };
    assert!(err_msg.starts_with("word_timestamps is not supported with beam_width > 1"));
    assert!(err_msg.contains("word_timestamps"));
    assert_eq!(opts.beam_width, 2);
}

#[test]
fn stages_lead_to_words() {
    let t = words(&TranscribeOptions::default(), Ok(-0.5), Ok(vec![0, 1])).ok().expect("sound");
    assert_eq!(t.text, "helloworld");
    assert_eq!(t.language, Some("fr".to_string()));
    assert_eq!(t.no_speech_prob, 0.25);
    assert_eq!(t.words.len(), 2);
    assert_eq!(t.words[0].confidence, -0.5);
    assert_eq!((t.words[1].word.as_str(), t.words[1].start, t.words[1].end), ("world", 0.01, 0.02));
}

#[test]
fn failures_of_stages_are_reported() {
    let opts = TranscribeOptions::default();
    match words(&opts, Err("no encoder".to_string()), Ok(vec![])) {
        Err(OxiWhisperError::InvalidModel(m)) => assert_eq!(m, "no encoder"),
        other => panic!("unexpected {:?}", other.map(|t| t.text)),
    }
    match words(&opts, Ok(0.0), Err("no decoder".to_string())) {
        Err(OxiWhisperError::InferenceFailed(m)) => assert_eq!(m, "no decoder"),
        other => panic!("unexpected {:?}", other.map(|t| t.text)),
    }
}
