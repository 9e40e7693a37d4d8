use oxiwhisper::dtw::{align_samples, align_tokens_dtw, build_word_segments, WordSegment};

fn align(
    weights: &[f32],
    n_tokens: usize,
    n_frames: usize,
    hop_length: usize,
    sample_rate: usize,
) -> Vec<(f32, f32)> {
    align_tokens_dtw(
        weights,
        n_tokens,
        n_frames,
        hop_length,
        sample_rate,
        &|x: f32| x.to_bits(),
        &|n: usize| n as f32,
        &|a: f32, b: f32| a.max(b),
    )
}

fn segments(texts: &[String], times: &[(f32, f32)], probs: &[f32]) -> Vec<WordSegment<f32>> {
    build_word_segments(texts, times, probs, 0.0, &|n: usize| n as f32)
}

fn texts(t: &[&str]) -> Vec<String> {
    t.iter().map(|s| s.to_string()).collect()
}

#[test]
fn test_align_tokens_empty() {
    let result = align(&[], 0, 0, 160, 16000);
    assert!(result.is_empty());
}

#[test]
fn test_align_tokens_single() {
    // 1 token, 10 frames, attention peaks at frame 5
    let mut weights = vec![0.0f32; 10];
    weights[5] = 1.0;
    let result = align(&weights, 1, 10, 160, 16000);
    assert_eq!(result.len(), 1);
    assert!((result[0].0 - 0.05).abs() < 0.001); // frame 5 * 160 / 16000 = 0.05s
}

#[test]
fn test_align_tokens_monotonic() {
    // 3 tokens, attention peaks at frames 2, 1, 8 -> monotonic correction -> 2, 2, 8
    let n_frames = 10;
    let mut weights = vec![0.0f32; 3 * n_frames];
    weights[2] = 1.0; // token 0 peaks at frame 2
    weights[n_frames + 1] = 1.0; // token 1 peaks at frame 1 (should be corrected to 2)
    weights[2 * n_frames + 8] = 1.0; // token 2 peaks at frame 8
    let result = align(&weights, 3, n_frames, 160, 16000);
    assert_eq!(result.len(), 3);
    // Token 1 should start at same frame as token 0 (monotonicity enforced)
    assert!(result[1].0 >= result[0].0);
    assert!(result[2].0 >= result[1].0);
}

#[test]
fn test_build_word_segments_basic() {
    let texts = vec![" Hello".to_string(), " world".to_string()];
    let times = vec![(0.0, 0.5), (0.5, 1.0)];
    let probs = vec![-0.1, -0.2];
    let segs = segments(&texts, &times, &probs);
    assert_eq!(segs.len(), 2);
    assert_eq!(segs[0].word, "Hello");
    assert_eq!(segs[1].word, "world");
}

#[test]
fn test_build_word_segments_empty() {
    let segs = segments(&[], &[], &[]);
    assert!(segs.is_empty());
}

#[test]
fn test_build_word_segments_multitoken_word() {
    // "un" + "break" + "able" = one word "unbreakable"
    let texts = vec![" un".to_string(), "break".to_string(), "able".to_string()];
    let times = vec![(0.0, 0.2), (0.2, 0.4), (0.4, 0.6)];
    let probs = vec![-0.1, -0.15, -0.2];
    let segs = segments(&texts, &times, &probs);
    assert_eq!(segs.len(), 1);
    assert_eq!(segs[0].word, "unbreakable");
    assert!((segs[0].start - 0.0).abs() < 0.001);
    assert!((segs[0].end - 0.6).abs() < 0.001);
}

#[test]
fn spans_follow_each_other() {
    let w: Vec<u32> = [0.0f32, 1.0, 0.0, 2.0, 0.0, 0.0, 0.0, 0.0, 3.0]
        .iter()
        .map(|x| x.to_bits())
        .collect();
    assert_eq!(align_samples(&w, 3, 3, 160), vec![(160, 160), (160, 320), (320, 480)]);
    assert!(align_samples(&w, 3, 0, 160).is_empty());
}

#[test]
fn times_are_seconds() {
    let mut weights = vec![0.0f32; 20];
    weights[3] = 1.0;
    weights[10 + 7] = 1.0;
    let times = align(&weights, 2, 10, 160, 16000);
    assert_eq!(
        times,
        vec![(480.0 / 16000.0, 1120.0 / 16000.0), (1120.0 / 16000.0, 1280.0 / 16000.0)]
    );
}

#[test]
fn the_last_peak_is_kept_inside_the_frames() {
    let times = align(&[0.0, 1.0], 1, 2, 160, 16000);
    assert_eq!(times, vec![(0.01, 0.02)]);
}

#[test]
fn words_take_the_mean_of_their_tokens() {
    let t = texts(&[" un", "do", " it", " \u{3000}", "!"]);
    let times = [(0.0f32, 0.1), (0.1, 0.2), (0.2, 0.3), (0.3, 0.4), (0.4, 0.5)];
    let s = segments(&t, &times, &[-1.0, -2.0, -4.0]);
    assert_eq!(s.len(), 2);
    assert_eq!((s[0].word.as_str(), s[0].start, s[0].end, s[0].confidence), ("undo", 0.0, 0.2, -1.5));
    assert_eq!((s[1].word.as_str(), s[1].start, s[1].end, s[1].confidence), ("it!", 0.2, 0.5, -4.0));
}

#[test]
fn words_without_times_or_probabilities_have_zeros() {
    let s = segments(&texts(&["a", " b"]), &[], &[]);
    assert_eq!(s.len(), 2);
    for w in &s {
        assert_eq!((w.start, w.end, w.confidence), (0.0, 0.0, 0.0));
    }
}

#[test]
fn words_lie_in_order_where_times_do() {
    let t = texts(&[" a", " b", "c", " d"]);
    let times = [(0.0f32, 0.5), (0.5, 0.5), (0.5, 0.7), (0.7, 0.9)];
    let s = segments(&t, &times, &[]);
    assert_eq!(s.len(), 3);
    for w in &s {
        assert!(w.start <= w.end);
    }
    for pair in s.windows(2) {
        assert!(pair[0].start <= pair[1].start);
    }
}
