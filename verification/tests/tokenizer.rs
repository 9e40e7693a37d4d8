use oxiwhisper::model::VocabEntry;
use oxiwhisper::tokenizer::{decode, parse_segments, parse_ticks, SpecialTokens};

fn make_entry(text: &str) -> VocabEntry {
    VocabEntry { text: text.to_string() }
}

fn token_seconds(token: u32) -> f32 {
    SpecialTokens::timestamp_seconds(token, &|b: u32| f32::from_bits(b), &|n: u32| n as f32)
}

fn segments_of(tokens: &[u32], vocab: &[VocabEntry]) -> Vec<(f32, f32, String)> {
    parse_segments(tokens, vocab, &|b: u32| f32::from_bits(b), &|n: u32| n as f32)
}

#[test]
fn test_decode_cjk_passthrough() {
    let vocab = vec![
        make_entry("日本語"),
        make_entry("テスト"),
        make_entry("한국어"),
        make_entry("中文"),
    ];
    let result = decode(&[0, 1, 2, 3], &vocab);
    assert_eq!(result, "日本語テスト한국어中文");
    assert_eq!(result.len(), 33, "UTF-8 byte count");
}

#[test]
fn test_decode_emoji_with_zwj_sequences() {
    let family = "👨\u{200D}👩\u{200D}👧";
    let vocab = vec![make_entry(family)];
    let result = decode(&[0], &vocab);
    assert_eq!(result, family);
}

#[test]
fn test_decode_zero_width_characters() {
    let with_bom = "\u{FEFF}Hello";
    let vocab = vec![make_entry(with_bom)];
    let result = decode(&[0], &vocab);
    assert!(result.starts_with('\u{FEFF}'), "BOM must be preserved");
}

#[test]
fn test_decode_whisper_prefix_space_handling() {
    let vocab = vec![make_entry(" Hello"), make_entry(" world")];
    let result = decode(&[0, 1], &vocab);
    assert_eq!(result, " Hello world");
}

#[test]
fn test_decode_special_tokens_round_trip() {
    let vocab = vec![
        make_entry("<|startoftranscript|>"),
        make_entry("<|en|>"),
        make_entry("<|transcribe|>"),
        make_entry("<|notimestamps|>"),
        make_entry("Hello"),
    ];
    let result = decode(&[0, 1, 2, 3, 4], &vocab);
    assert_eq!(result, "Hello", "all special tokens must be elided");
}

#[test]
fn test_decode_out_of_vocab_id_no_panic() {
    let vocab = vec![make_entry("a"), make_entry("b"), make_entry("c")];
    let result = decode(&[0, 99999, 1, u32::MAX, 2], &vocab);
    assert_eq!(result, "abc", "only valid IDs should appear");
}

#[test]
fn test_decode_mixed_ascii_cjk_emoji_punctuation() {
    let vocab = vec![
        make_entry(" Hello"),
        make_entry(" 世界"),
        make_entry("!"),
        make_entry(" 🎉"),
        make_entry(" test."),
    ];
    let result = decode(&[0, 1, 2, 3, 4], &vocab);
    assert_eq!(result, " Hello 世界! 🎉 test.");
}

#[test]
fn test_decode_space() {
    let vocab = vec![VocabEntry { text: " Hello".to_string() }];
    assert_eq!(decode(&[0], &vocab), " Hello");
}

#[test]
fn test_decode_japanese() {
    let vocab = vec![VocabEntry { text: "はい".to_string() }];
    assert_eq!(decode(&[0], &vocab), "はい");
}

#[test]
fn test_decode_skips_special() {
    let vocab = vec![
        VocabEntry { text: "<|startoftranscript|>".to_string() },
        VocabEntry { text: "Hello".to_string() },
    ];
    assert_eq!(decode(&[0, 1], &vocab), "Hello");
}

#[test]
fn test_decode_out_of_range() {
    let vocab = vec![VocabEntry { text: "hi".to_string() }];
    assert_eq!(decode(&[0, 9999], &vocab), "hi");
}

#[test]
fn test_is_timestamp() {
    assert!(!SpecialTokens::is_timestamp(0));
    assert!(!SpecialTokens::is_timestamp(50256)); // EOT
    assert!(!SpecialTokens::is_timestamp(50363)); // no_timestamps
    assert!(SpecialTokens::is_timestamp(50364)); // TIMESTAMP_BEGIN (0.00s)
    assert!(SpecialTokens::is_timestamp(50365)); // 0.02s
    assert!(SpecialTokens::is_timestamp(51864)); // 30.00s
    assert!(SpecialTokens::is_timestamp(u32::MAX));
}

#[test]
fn test_timestamp_seconds() {
    // Token 50364 = 0.00s
    let secs = token_seconds(50364);
    assert!((secs - 0.0).abs() < 1e-6);

    // Token 50365 = 0.02s
    let secs = token_seconds(50365);
    assert!((secs - 0.02).abs() < 1e-6);

    // Token 50414 = 1.00s
    let secs = token_seconds(50414);
    assert!((secs - 1.0).abs() < 1e-6);

    // A token below the first timestamp gives 0.0
    let secs = token_seconds(100);
    assert!((secs - 0.0).abs() < 1e-6);
}

#[test]
fn test_parse_segments_with_timestamps() {
    let vocab = vec![make_entry("Hello"), make_entry(" world")];
    let ts_start: u32 = 50364; // 0.00s
    let ts_end: u32 = 50464; // 2.00s
    let tokens = vec![ts_start, 0, 1, ts_end];

    let segments = segments_of(&tokens, &vocab);
    assert_eq!(segments.len(), 1);
    assert!((segments[0].0 - 0.0).abs() < 1e-6);
    assert!((segments[0].1 - 2.0).abs() < 1e-6);
    assert_eq!(segments[0].2, "Hello world");
}

#[test]
fn test_parse_segments_multiple() {
    let vocab = vec![make_entry("Hello"), make_entry(" there")];
    let ts0: u32 = 50364; // 0.00s
    let ts1: u32 = 50414; // 1.00s
    let ts2: u32 = 50464; // 2.00s
    let tokens = vec![ts0, 0, ts1, 1, ts2];

    let segments = segments_of(&tokens, &vocab);
    assert_eq!(segments.len(), 2);
    assert_eq!(segments[0].2, "Hello");
    assert!((segments[0].0 - 0.0).abs() < 1e-6);
    assert!((segments[0].1 - 1.0).abs() < 1e-6);
    assert_eq!(segments[1].2, "there");
    assert!((segments[1].0 - 1.0).abs() < 1e-6);
    assert!((segments[1].1 - 2.0).abs() < 1e-6);
}

#[test]
fn test_parse_segments_no_timestamps() {
    let vocab = vec![make_entry("Hello"), make_entry(" world")];
    let tokens = vec![0, 1];
    let segments = segments_of(&tokens, &vocab);
    assert_eq!(segments.len(), 1);
    assert!((segments[0].0 - 0.0).abs() < 1e-6);
    assert!((segments[0].1 - 0.0).abs() < 1e-6);
    assert_eq!(segments[0].2, "Hello world");
}

#[test]
fn test_parse_segments_empty() {
    let vocab: Vec<VocabEntry> = Vec::new();
    let tokens: Vec<u32> = Vec::new();
    let segments = segments_of(&tokens, &vocab);
    assert!(segments.is_empty());
}

#[test]
fn segments_drop_blank_text_and_text_before_the_first_timestamp() {
    let vocab = vec![make_entry("lost"), make_entry("  "), make_entry(" kept\t"), make_entry("<|x|>")];
    // "lost" <|1|> blank <|2|> kept special <|3|>
    let segments = parse_ticks(&[0, 50365, 1, 50366, 2, 3, 50367], &vocab);
    assert_eq!(segments, vec![(2, 3, "kept".to_string())]);
}

#[test]
fn text_behind_the_last_timestamp_ends_at_zero() {
    let vocab = vec![make_entry(" tail")];
    let segments = parse_ticks(&[50374, 0, 77], &vocab);
    assert_eq!(segments, vec![(10, 0, "tail".to_string())]);
}

#[test]
fn blank_text_without_timestamps_gives_no_segment() {
    let vocab = vec![make_entry(" \u{3000}\u{2028}\n")];
    assert!(parse_ticks(&[0, 0], &vocab).is_empty());
}

#[test]
fn decoding_in_two_parts_gives_the_same_text() {
    let vocab = vec![make_entry(" a"), make_entry("<|b|>"), make_entry("ü")];
    let ids = [0u32, 1, 2, 9, 2, 0];
    for cut in 0..=ids.len() {
        let joined = decode(&ids[..cut], &vocab) + &decode(&ids[cut..], &vocab);
        assert_eq!(joined, decode(&ids, &vocab));
    }
}

#[test]
fn special_token_ids() {
    let s = SpecialTokens::new(51865);
    assert_eq!(s, SpecialTokens::new(0));
    assert_eq!((s.eot, s.sot, s.translate, s.transcribe), (50256, 50258, 50358, 50359));
    assert_eq!((s.sot_prev, s.no_speech, s.no_timestamps), (50361, 50362, 50363));
}

#[test]
fn language_tokens_follow_the_list() {
    let s = SpecialTokens::new(51865);
    assert_eq!(s.language_token("en"), 50259);
    assert_eq!(s.language_token("zh"), 50260);
    assert_eq!(s.language_token("ja"), 50266);
    assert_eq!(s.language_token("haw"), 50352);
    assert_eq!(s.language_token("su"), 50357);
    assert_eq!(s.language_token("xx"), 50259);
    assert_eq!(s.language_token(""), 50259);
}

#[test]
fn timestamps_count_ticks() {
    assert_eq!(SpecialTokens::timestamp_ticks(50364), 0);
    assert_eq!(SpecialTokens::timestamp_ticks(50414), 50);
    assert_eq!(SpecialTokens::timestamp_ticks(7), 0);
}

#[test]
fn segments_lie_in_order_where_timestamps_do() {
    let vocab = vec![make_entry(" a "), make_entry("\u{3000}b")];
    let segments = parse_ticks(&[50364, 0, 50374, 50380, 1, 50390, 0], &vocab);
    assert_eq!(
        segments,
        vec![(0, 10, "a".to_string()), (16, 26, "b".to_string()), (26, 0, "a".to_string())]
    );
}

#[test]
fn segments_have_their_times_in_seconds() {
    let vocab = vec![make_entry(" a")];
    assert_eq!(
        segments_of(&[50374, 0, 50381, 0], &vocab),
        vec![(10.0 * 0.02, 17.0 * 0.02, "a".to_string()), (17.0 * 0.02, 0.0, "a".to_string())]
    );
}
