use oxiwhisper::audio::wav::{WAVE_FORMAT_IEEE_FLOAT, WAVE_FORMAT_PCM};
use oxiwhisper::audio::{
    convert_sample, decode_samples, downmix_to_mono, load_raw_pcm, load_wav_from_bytes,
    parse_fmt_chunk, parse_wav, read_f32_le, read_i24_le, read_i32_le, read_u16_le, read_u32_le,
    resample_linear, tag_matches, AudioMath, FmtChunk, Sample,
};
use oxiwhisper::types::OxiWhisperError;

/// Single-precision signals with double-precision positions.
fn math() -> AudioMath<
    f32,
    impl Fn(i64) -> f32,
    impl Fn(u32) -> f32,
    impl Fn(usize) -> f64,
    impl Fn(f64) -> usize,
    impl Fn(f64) -> usize,
    impl Fn(f64) -> f32,
> {
    AudioMath::new(
        |n: i64| n as f32,
        |b: u32| f32::from_bits(b),
        |n: usize| n as f64,
        |d: f64| d.ceil() as usize,
        |d: f64| d as usize,
        |d: f64| d as f32,
    )
}

/// Build a minimal WAV file in memory.
fn build_wav(
    sample_rate: u32,
    num_channels: u16,
    bits_per_sample: u16,
    audio_format: u16,
    raw_samples: &[u8],
) -> Vec<u8> {
    let fmt_chunk_size: u32 = 16;
    let data_chunk_size = raw_samples.len() as u32;
    // RIFF size = 4 (WAVE) + 8+fmt_size + 8+data_size
    let riff_size: u32 = 4 + 8 + fmt_chunk_size + 8 + data_chunk_size;

    let byte_rate = sample_rate * num_channels as u32 * (bits_per_sample as u32 / 8);
    let block_align = num_channels * (bits_per_sample / 8);

    let mut buf = Vec::new();
    // RIFF header
    buf.extend_from_slice(b"RIFF");
    buf.extend_from_slice(&riff_size.to_le_bytes());
    buf.extend_from_slice(b"WAVE");
    // fmt chunk
    buf.extend_from_slice(b"fmt ");
    buf.extend_from_slice(&fmt_chunk_size.to_le_bytes());
    buf.extend_from_slice(&audio_format.to_le_bytes());
    buf.extend_from_slice(&num_channels.to_le_bytes());
    buf.extend_from_slice(&sample_rate.to_le_bytes());
    buf.extend_from_slice(&byte_rate.to_le_bytes());
    buf.extend_from_slice(&block_align.to_le_bytes());
    buf.extend_from_slice(&bits_per_sample.to_le_bytes());
    // data chunk
    buf.extend_from_slice(b"data");
    buf.extend_from_slice(&data_chunk_size.to_le_bytes());
    buf.extend_from_slice(raw_samples);
    buf
}

fn samples_to_i16_bytes(samples: &[i16]) -> Vec<u8> {
    let mut bytes = Vec::with_capacity(samples.len() * 2);
    for &s in samples {
        bytes.extend_from_slice(&s.to_le_bytes());
    }
    bytes
}

fn samples_to_f32_bytes(samples: &[f32]) -> Vec<u8> {
    let mut bytes = Vec::with_capacity(samples.len() * 4);
    for &s in samples {
        bytes.extend_from_slice(&s.to_le_bytes());
    }
    bytes
}

// 16-bit PCM WAV
#[test]
fn test_parse_16bit_pcm() {
    let raw: Vec<i16> = vec![0, 16384, 32767, -32768, -1];
    let bytes = samples_to_i16_bytes(&raw);
    let wav = build_wav(16000, 1, 16, WAVE_FORMAT_PCM, &bytes);

    let result = load_wav_from_bytes(&math(), &wav);
    assert!(
        result.is_ok(),
        "Failed to parse 16-bit WAV: {:?}",
        result.err()
    );
    let samples = result.expect("already checked");
    assert_eq!(samples.len(), 5);

    // 0 / 32768 = 0.0
    assert!((samples[0]).abs() < 1e-5);
    // 16384 / 32768 = 0.5
    assert!((samples[1] - 0.5).abs() < 1e-4);
    // 32767 / 32768 ≈ 1.0
    assert!((samples[2] - 32767.0 / 32768.0).abs() < 1e-5);
    // -32768 / 32768 = -1.0
    assert!((samples[3] - (-1.0)).abs() < 1e-5);
}

// 32-bit float WAV
#[test]
fn test_parse_32bit_float() {
    let raw: Vec<f32> = vec![0.0, 0.5, 1.0, -1.0, -0.25];
    let bytes = samples_to_f32_bytes(&raw);
    let wav = build_wav(16000, 1, 32, WAVE_FORMAT_IEEE_FLOAT, &bytes);

    let result = load_wav_from_bytes(&math(), &wav);
    assert!(result.is_ok());
    let samples = result.expect("already checked");
    assert_eq!(samples.len(), 5);
    assert!((samples[0]).abs() < 1e-7);
    assert!((samples[1] - 0.5).abs() < 1e-7);
    assert!((samples[2] - 1.0).abs() < 1e-7);
    assert!((samples[3] - (-1.0)).abs() < 1e-7);
    assert!((samples[4] - (-0.25)).abs() < 1e-7);
}

// 8-bit unsigned PCM WAV
#[test]
fn test_parse_8bit_pcm() {
    // 128 = silence, 0 = -1.0, 255 ≈ +1.0
    let raw: Vec<u8> = vec![128, 0, 255];
    let wav = build_wav(16000, 1, 8, WAVE_FORMAT_PCM, &raw);

    let result = load_wav_from_bytes(&math(), &wav);
    assert!(result.is_ok());
    let samples = result.expect("already checked");
    assert_eq!(samples.len(), 3);
    assert!(samples[0].abs() < 1e-5); // silence
    assert!((samples[1] - (-1.0)).abs() < 1e-5);
    assert!((samples[2] - (127.0 / 128.0)).abs() < 1e-4);
}

// 24-bit signed PCM WAV
#[test]
fn test_parse_24bit_pcm() {
    // Encode a few 24-bit samples manually
    let mut raw = Vec::new();
    // 0
    raw.extend_from_slice(&[0x00, 0x00, 0x00]);
    // max positive: 0x7FFFFF = 8388607
    raw.extend_from_slice(&[0xFF, 0xFF, 0x7F]);
    // max negative: 0x800000 = -8388608
    raw.extend_from_slice(&[0x00, 0x00, 0x80]);

    let wav = build_wav(16000, 1, 24, WAVE_FORMAT_PCM, &raw);
    let result = load_wav_from_bytes(&math(), &wav);
    assert!(result.is_ok());
    let samples = result.expect("already checked");
    assert_eq!(samples.len(), 3);
    assert!(samples[0].abs() < 1e-7);
    assert!((samples[1] - (8_388_607.0 / 8_388_608.0)).abs() < 1e-5);
    assert!((samples[2] - (-1.0)).abs() < 1e-5);
}

// 32-bit signed integer PCM WAV
#[test]
fn test_parse_32bit_int_pcm() {
    let mut raw = Vec::new();
    raw.extend_from_slice(&0_i32.to_le_bytes());
    raw.extend_from_slice(&i32::MAX.to_le_bytes());
    raw.extend_from_slice(&i32::MIN.to_le_bytes());

    let wav = build_wav(16000, 1, 32, WAVE_FORMAT_PCM, &raw);
    let result = load_wav_from_bytes(&math(), &wav);
    assert!(result.is_ok());
    let samples = result.expect("already checked");
    assert_eq!(samples.len(), 3);
    assert!(samples[0].abs() < 1e-7);
    // i32::MAX / 2^31 ≈ 1.0
    assert!((samples[1] - (i32::MAX as f32 / 2_147_483_648.0)).abs() < 1e-5);
    assert!((samples[2] - (-1.0)).abs() < 1e-5);
}

// Stereo downmix to mono
#[test]
fn test_stereo_downmix() {
    // Stereo 16-bit: L=32767, R=-32768 → average ≈ -0.5/32768
    let raw: Vec<i16> = vec![
        32767, -32768, // frame 0
        0, 0, // frame 1
        16384, 16384, // frame 2
    ];
    let bytes = samples_to_i16_bytes(&raw);
    let wav = build_wav(16000, 2, 16, WAVE_FORMAT_PCM, &bytes);

    let result = load_wav_from_bytes(&math(), &wav);
    assert!(result.is_ok());
    let samples = result.expect("already checked");
    assert_eq!(samples.len(), 3); // 3 frames, mono

    // Frame 0: (32767/32768 + (-32768/32768)) / 2 = (-1/32768)/2
    let expected_0 = ((32767.0_f32 / 32768.0) + (-1.0)) / 2.0;
    assert!((samples[0] - expected_0).abs() < 1e-4);

    // Frame 1: 0
    assert!(samples[1].abs() < 1e-5);

    // Frame 2: 0.5
    assert!((samples[2] - 0.5).abs() < 1e-4);
}

// Resampling 48kHz → 16kHz
#[test]
fn test_resample_48k_to_16k() {
    // Generate a simple 48kHz signal: 480 samples = 10 ms
    let source_rate = 48000_u32;
    let num_source = 480_usize;
    let mut raw_f32 = Vec::with_capacity(num_source);
    for i in 0..num_source {
        // A linear ramp from 0 to 1
        raw_f32.push(i as f32 / (num_source - 1) as f32);
    }
    let bytes = samples_to_f32_bytes(&raw_f32);
    let wav = build_wav(source_rate, 1, 32, WAVE_FORMAT_IEEE_FLOAT, &bytes);

    let result = load_wav_from_bytes(&math(), &wav);
    assert!(result.is_ok());
    let samples = result.expect("already checked");

    // 480 samples at 48kHz → 160 samples at 16kHz
    assert_eq!(samples.len(), 160);

    // First sample should be ~0.0, last should be ~1.0
    assert!(samples[0].abs() < 0.01);
    assert!((samples[samples.len() - 1] - 1.0).abs() < 0.05);

    // Check monotonicity (ramp should remain monotonically increasing)
    for i in 1..samples.len() {
        assert!(
            samples[i] >= samples[i - 1] - 1e-6,
            "Non-monotonic at index {i}: {} < {}",
            samples[i],
            samples[i - 1]
        );
    }
}

// Already at 16kHz — no resampling
#[test]
fn test_no_resample_when_already_16k() {
    let raw: Vec<f32> = vec![0.1, 0.2, 0.3, 0.4];
    let bytes = samples_to_f32_bytes(&raw);
    let wav = build_wav(16000, 1, 32, WAVE_FORMAT_IEEE_FLOAT, &bytes);

    let result = load_wav_from_bytes(&math(), &wav);
    assert!(result.is_ok());
    let samples = result.expect("already checked");
    assert_eq!(samples.len(), 4);
    for (a, b) in samples.iter().zip(raw.iter()) {
        assert!((a - b).abs() < 1e-7);
    }
}

// Empty/corrupt WAV error handling
#[test]
fn test_empty_data_error() {
    let result = load_wav_from_bytes(&math(), &[]);
    assert!(result.is_err());
}

#[test]
fn test_missing_riff_header() {
    let result = load_wav_from_bytes(&math(), b"NOT_A_WAV_FILE_AT_ALL");
    assert!(result.is_err());
}

#[test]
fn test_missing_wave_tag() {
    let mut data = Vec::new();
    data.extend_from_slice(b"RIFF");
    data.extend_from_slice(&100_u32.to_le_bytes());
    data.extend_from_slice(b"XXXX"); // not WAVE
    let result = load_wav_from_bytes(&math(), &data);
    assert!(result.is_err());
}

#[test]
fn test_truncated_wav() {
    // Valid header but truncated before data
    let wav = build_wav(16000, 1, 16, WAVE_FORMAT_PCM, &[]);
    let result = load_wav_from_bytes(&math(), &wav);
    // Should succeed with 0 samples (data chunk size is 0)
    assert!(result.is_ok());
    let samples = result.expect("already checked");
    assert!(samples.is_empty());
}

#[test]
fn test_no_data_chunk() {
    // Only a fmt chunk, no data chunk
    let mut buf = Vec::new();
    buf.extend_from_slice(b"RIFF");
    buf.extend_from_slice(&20_u32.to_le_bytes()); // size
    buf.extend_from_slice(b"WAVE");
    buf.extend_from_slice(b"fmt ");
    buf.extend_from_slice(&16_u32.to_le_bytes());
    // Minimal valid fmt: PCM, 1ch, 16000Hz, 16bit
    buf.extend_from_slice(&1_u16.to_le_bytes()); // format
    buf.extend_from_slice(&1_u16.to_le_bytes()); // channels
    buf.extend_from_slice(&16000_u32.to_le_bytes()); // sample rate
    buf.extend_from_slice(&32000_u32.to_le_bytes()); // byte rate
    buf.extend_from_slice(&2_u16.to_le_bytes()); // block align
    buf.extend_from_slice(&16_u16.to_le_bytes()); // bits per sample

    let result = load_wav_from_bytes(&math(), &buf);
    assert!(result.is_err());
}

#[test]
fn test_data_before_fmt_error() {
    // data chunk appears before fmt chunk
    let mut buf = Vec::new();
    buf.extend_from_slice(b"RIFF");
    buf.extend_from_slice(&40_u32.to_le_bytes());
    buf.extend_from_slice(b"WAVE");
    // data chunk first
    buf.extend_from_slice(b"data");
    buf.extend_from_slice(&4_u32.to_le_bytes());
    buf.extend_from_slice(&[0u8; 4]);

    let result = load_wav_from_bytes(&math(), &buf);
    assert!(result.is_err());
}

// Unsupported format
#[test]
fn test_unsupported_audio_format() {
    // Build a WAV with format=2 (ADPCM) which we don't support
    let mut buf = Vec::new();
    buf.extend_from_slice(b"RIFF");
    buf.extend_from_slice(&40_u32.to_le_bytes());
    buf.extend_from_slice(b"WAVE");
    buf.extend_from_slice(b"fmt ");
    buf.extend_from_slice(&16_u32.to_le_bytes());
    buf.extend_from_slice(&2_u16.to_le_bytes()); // format=2 (ADPCM)
    buf.extend_from_slice(&1_u16.to_le_bytes());
    buf.extend_from_slice(&16000_u32.to_le_bytes());
    buf.extend_from_slice(&32000_u32.to_le_bytes());
    buf.extend_from_slice(&2_u16.to_le_bytes());
    buf.extend_from_slice(&16_u16.to_le_bytes());

    let result = load_wav_from_bytes(&math(), &buf);
    assert!(result.is_err());
}

// Output normalisation bounds
#[test]
fn test_output_normalised_range() {
    // Full-range 16-bit samples
    let raw: Vec<i16> = vec![i16::MIN, i16::MAX, 0, 1000, -1000];
    let bytes = samples_to_i16_bytes(&raw);
    let wav = build_wav(16000, 1, 16, WAVE_FORMAT_PCM, &bytes);

    let result = load_wav_from_bytes(&math(), &wav);
    assert!(result.is_ok());
    let samples = result.expect("already checked");
    for &s in &samples {
        assert!((-1.0..=1.0).contains(&s), "Sample {s} outside [-1.0, 1.0]");
    }
}

// load_raw_pcm helper
#[test]
fn test_load_raw_pcm_passthrough() {
    let input = vec![0.1_f32, 0.2, 0.3, 0.4];
    let result = load_raw_pcm(&math(), &input, 16000, 1);
    assert_eq!(result.len(), input.len());
    for (a, b) in result.iter().zip(input.iter()) {
        assert!((a - b).abs() < 1e-7);
    }
}

#[test]
fn test_load_raw_pcm_stereo_resample() {
    // Stereo interleaved at 32kHz: L and R identical
    let mut input = Vec::new();
    for i in 0..64 {
        let v = i as f32 / 63.0;
        input.push(v); // L
        input.push(v); // R
    }
    let result = load_raw_pcm(&math(), &input, 32000, 2);
    // 64 frames at 32kHz → 32 frames at 16kHz
    assert_eq!(result.len(), 32);
    // Should be monotonically increasing
    for i in 1..result.len() {
        assert!(result[i] >= result[i - 1] - 1e-6);
    }
}

// WAV with unknown chunk before data (should skip it)
#[test]
fn test_skip_unknown_chunks() {
    let mut buf = Vec::new();
    buf.extend_from_slice(b"RIFF");
    // placeholder for size – fill in later
    let riff_size_pos = buf.len();
    buf.extend_from_slice(&0_u32.to_le_bytes());
    buf.extend_from_slice(b"WAVE");

    // fmt chunk
    buf.extend_from_slice(b"fmt ");
    buf.extend_from_slice(&16_u32.to_le_bytes());
    buf.extend_from_slice(&1_u16.to_le_bytes()); // PCM
    buf.extend_from_slice(&1_u16.to_le_bytes()); // mono
    buf.extend_from_slice(&16000_u32.to_le_bytes());
    buf.extend_from_slice(&32000_u32.to_le_bytes());
    buf.extend_from_slice(&2_u16.to_le_bytes());
    buf.extend_from_slice(&16_u16.to_le_bytes());

    // Unknown "LIST" chunk with 10 bytes of junk
    buf.extend_from_slice(b"LIST");
    buf.extend_from_slice(&10_u32.to_le_bytes());
    buf.extend_from_slice(&[0xAB; 10]);

    // data chunk
    let samples_i16: Vec<i16> = vec![100, 200, 300];
    let sample_bytes = samples_to_i16_bytes(&samples_i16);
    buf.extend_from_slice(b"data");
    buf.extend_from_slice(&(sample_bytes.len() as u32).to_le_bytes());
    buf.extend_from_slice(&sample_bytes);

    // Fix RIFF size
    let riff_size = (buf.len() - 8) as u32;
    buf[riff_size_pos..riff_size_pos + 4].copy_from_slice(&riff_size.to_le_bytes());

    let result = load_wav_from_bytes(&math(), &buf);
    assert!(result.is_ok());
    let samples = result.expect("already checked");
    assert_eq!(samples.len(), 3);
    assert!((samples[0] - 100.0 / 32768.0).abs() < 1e-5);
}

// Four-channel downmix
#[test]
fn test_four_channel_downmix() {
    let raw: Vec<f32> = vec![
        1.0, 0.0, -1.0, 0.0, // frame 0 → avg 0.0
        0.5, 0.5, 0.5, 0.5, // frame 1 → avg 0.5
    ];
    let bytes = samples_to_f32_bytes(&raw);
    let wav = build_wav(16000, 4, 32, WAVE_FORMAT_IEEE_FLOAT, &bytes);

    let result = load_wav_from_bytes(&math(), &wav);
    assert!(result.is_ok());
    let samples = result.expect("already checked");
    assert_eq!(samples.len(), 2);
    assert!(samples[0].abs() < 1e-6);
    assert!((samples[1] - 0.5).abs() < 1e-6);
}

/// The message of an error about malformed bytes.
fn message(e: OxiWhisperError) -> String {
    match e {
        OxiWhisperError::InvalidModel(m) => m,
        other => panic!("unexpected error {other:?}"),
    }
}

fn wav_error(bytes: &[u8]) -> String {
    match load_wav_from_bytes(&math(), bytes) {
        Err(e) => message(e),
        Ok(_) => panic!("expected an error"),
    }
}

fn fmt_bytes(format: u16, channels: u16, rate: u32, bits: u16) -> Vec<u8> {
    let mut b = Vec::new();
    b.extend_from_slice(&format.to_le_bytes());
    b.extend_from_slice(&channels.to_le_bytes());
    b.extend_from_slice(&rate.to_le_bytes());
    b.extend_from_slice(&[0; 6]);
    b.extend_from_slice(&bits.to_le_bytes());
    b
}

fn fmt_error(format: u16, channels: u16, rate: u32, bits: u16) -> String {
    match parse_fmt_chunk(&fmt_bytes(format, channels, rate, bits), 0, 16) {
        Err(e) => message(e),
        Ok(_) => panic!("expected an error"),
    }
}

#[test]
fn malformed_files_are_reported() {
    assert_eq!(wav_error(b"RIFF"), "File too small to be a WAV");
    assert_eq!(wav_error(b"JUNKxxxxWAVE"), "Missing RIFF header");
    assert_eq!(wav_error(b"RIFFxxxxWAVX"), "Missing WAVE tag");
    assert_eq!(wav_error(b"RIFFxxxxWAVE"), "No data chunk found in WAV");
    assert_eq!(wav_error(b"RIFFxxxxWAVEdata\0\0\0\0"), "data chunk before fmt chunk");
    assert_eq!(wav_error(b"RIFFxxxxWAVEfmt \x0f\0\0\0"), "fmt chunk too small");
    let cut = b"RIFFxxxxWAVEfmt \x10\0\0\0";
    assert_eq!(wav_error(cut), "Unexpected end of WAV data reading u16");
    let mut longer = cut.to_vec();
    longer.extend_from_slice(&[1, 0, 1, 0]);
    assert_eq!(wav_error(&longer), "Unexpected end of WAV data reading u32");
}

#[test]
fn unsupported_formats_are_reported() {
    assert_eq!(fmt_error(1, 0, 16000, 16), "WAV has zero channels");
    assert_eq!(fmt_error(1, 1, 0, 16), "WAV has zero sample rate");
    assert_eq!(fmt_error(1, 1, 16000, 12), "Unsupported PCM bit depth: 12");
    assert_eq!(fmt_error(3, 1, 16000, 64), "Unsupported IEEE float bit depth: 64");
    assert_eq!(fmt_error(2, 1, 16000, 16), "Unsupported audio format tag: 2");
}

#[test]
fn formats_are_parsed() {
    let f = parse_fmt_chunk(&fmt_bytes(1, 2, 44100, 24), 0, 16).ok();
    assert_eq!(
        f,
        Some(FmtChunk { audio_format: 1, num_channels: 2, sample_rate: 44100, bits_per_sample: 24 })
    );
}

#[test]
fn samples_cannot_be_decoded() {
    let odd = FmtChunk { audio_format: 7, num_channels: 1, sample_rate: 8000, bits_per_sample: 8 };
    let e = decode_samples(&[0, 0], 0, 2, &odd).map_err(message);
    assert_eq!(e, Err("Unsupported format/depth combination: fmt=7, bits=8".to_string()));
    let none = FmtChunk { audio_format: 1, num_channels: 0, sample_rate: 8000, bits_per_sample: 8 };
    let e = decode_samples(&[0, 0], 0, 2, &none).map_err(message);
    assert_eq!(e, Err("Frame size is zero".to_string()));
    let pcm = FmtChunk { audio_format: 1, num_channels: 1, sample_rate: 8000, bits_per_sample: 16 };
    let e = decode_samples(&[0, 0], 0, 4, &pcm).map_err(message);
    assert_eq!(e, Err("Data chunk extends past end of file".to_string()));
}

#[test]
fn little_endian_fields_are_read() {
    let b = [0x01, 0x02, 0x03, 0x84, 0xFF];
    assert_eq!(read_u16_le(&b, 0).ok(), Some(0x0201));
    assert_eq!(read_u32_le(&b, 0).ok(), Some(0x8403_0201));
    assert_eq!(read_f32_le(&1.5f32.to_le_bytes(), 0).ok(), Some(1.5f32.to_bits()));
    assert_eq!(read_i24_le(&b, 1).ok(), Some(0x8403_02 - 0x100_0000));
    assert_eq!(read_i32_le(&b, 0).ok(), Some(-0x7BFC_FDFF));
    assert_eq!(
        read_u16_le(&b, 4).map_err(message),
        Err("Unexpected end of WAV data reading u16".to_string())
    );
    assert_eq!(
        read_u32_le(&b, 2).map_err(message),
        Err("Unexpected end of WAV data reading u32".to_string())
    );
    assert_eq!(
        read_f32_le(&b, 2).map_err(message),
        Err("Unexpected end of WAV data reading f32".to_string())
    );
    assert_eq!(
        read_i24_le(&b, 3).map_err(message),
        Err("Unexpected end of WAV data reading i24".to_string())
    );
    assert_eq!(
        read_i32_le(&b, usize::MAX).map_err(message),
        Err("Unexpected end of WAV data reading i32".to_string())
    );
}

#[test]
fn tags_are_compared() {
    assert!(tag_matches(b"xRIFF", 1, b"RIFF"));
    assert!(!tag_matches(b"xRIFX", 1, b"RIFF"));
    assert!(!tag_matches(b"RIF", 0, b"RIFF"));
}

#[test]
fn written_samples_are_read_back() {
    let wav = build_wav(8000, 2, 24, WAVE_FORMAT_PCM, &[1, 0, 0, 0xFF, 0xFF, 0xFF, 9]);
    let audio = parse_wav(&wav).ok().expect("well-formed");
    assert_eq!(audio.fmt.sample_rate, 8000);
    assert_eq!(audio.fmt.num_channels, 2);
    assert_eq!(
        audio.samples,
        vec![Sample::Int { value: 1, bits: 24 }, Sample::Int { value: -1, bits: 24 }]
    );
}

#[test]
fn chunks_are_padded_to_an_even_length() {
    let mut buf = b"RIFFxxxxWAVEodd!".to_vec();
    buf.extend_from_slice(&3_u32.to_le_bytes());
    buf.extend_from_slice(&[7, 7, 7, 0]);
    let rest = build_wav(16000, 1, 8, WAVE_FORMAT_PCM, &[128, 192]);
    buf.extend_from_slice(&rest[12..]);
    assert_eq!(load_wav_from_bytes(&math(), &buf).ok(), Some(vec![0.0, 0.5]));
}

#[test]
fn a_data_chunk_may_be_cut_short() {
    let mut wav = build_wav(16000, 1, 16, WAVE_FORMAT_PCM, &[0, 0x40, 0, 0xC0, 1, 1]);
    let len = wav.len();
    wav.truncate(len - 1);
    assert_eq!(load_wav_from_bytes(&math(), &wav).ok(), Some(vec![0.5, -0.5]));
}

#[test]
fn samples_become_numbers() {
    let from_int = |n: i64| n as f32;
    let from_bits = |b: u32| f32::from_bits(b);
    let cases = [
        (Sample::Int { value: 64, bits: 8 }, 0.5),
        (Sample::Int { value: -8192, bits: 16 }, -0.25),
        (Sample::Int { value: 4194304, bits: 24 }, 0.5),
        (Sample::Int { value: i32::MIN, bits: 32 }, -1.0),
        (Sample::Float { pattern: 2.5f32.to_bits() }, 2.5),
    ];
    for (sample, expected) in cases {
        assert_eq!(convert_sample(&from_int, &from_bits, sample), expected);
    }
}

#[test]
fn incomplete_frames_are_dropped() {
    let mono = downmix_to_mono(&[1.0f32, 3.0, 5.0], 2, 0.0, 1.0, &|n: i64| n as f32);
    assert_eq!(mono, vec![2.0]);
    let same = downmix_to_mono(&[1.0f32, 3.0], 1, 0.0, 1.0, &|n: i64| n as f32);
    assert_eq!(same, vec![1.0, 3.0]);
}

#[test]
fn resampling_interpolates() {
    assert_eq!(resample_linear(&math(), &[0.0, 1.0, 2.0], 8000), vec![0.0, 0.5, 1.0, 1.5, 2.0, 2.0]);
    assert_eq!(resample_linear(&math(), &[0.0, 1.0, 2.0, 3.0, 4.0], 32000), vec![0.0, 2.0, 4.0]);
    assert!(resample_linear(&math(), &[], 8000).is_empty());
}

#[test]
fn floating_point_samples_stay_within_the_bounds() {
    let samples = [2.0f32, -3.5, 0.25, f32::INFINITY, f32::NEG_INFINITY, f32::NAN, -1.0, 1.0];
    let bytes = samples_to_f32_bytes(&samples);
    let fmt = FmtChunk {
        audio_format: WAVE_FORMAT_IEEE_FLOAT,
        num_channels: 1,
        sample_rate: 16000,
        bits_per_sample: 32,
    };
    let decoded = decode_samples(&bytes, 0, bytes.len(), &fmt).ok().expect("whole samples");
    let expected: Vec<Sample> = [1.0f32, -1.0, 0.25, 1.0, -1.0, 0.0, -1.0, 1.0]
        .iter()
        .map(|x| Sample::Float { pattern: x.to_bits() })
        .collect();
    assert_eq!(decoded, expected);
    let wav = build_wav(16000, 1, 32, 3, &bytes);
    let signal = load_wav_from_bytes(&math(), &wav).ok().expect("valid file");
    assert_eq!(signal, vec![1.0, -1.0, 0.25, 1.0, -1.0, 0.0, -1.0, 1.0]);
}

#[test]
fn offsets_behind_the_end_are_reported() {
    let fmt = FmtChunk {
        audio_format: WAVE_FORMAT_PCM,
        num_channels: 1,
        sample_rate: 16000,
        bits_per_sample: 16,
    };
    let past = "Data chunk extends past end of file";
    for (offset, size) in [(5, 0), (5, 2), (usize::MAX, 4), (3, 2)] {
        match decode_samples(&[0; 4], offset, size, &fmt) {
            Err(e) => assert_eq!(message(e), past),
            Ok(_) => panic!("expected an error"),
        }
    }
    assert_eq!(decode_samples(&[0; 4], 4, 0, &fmt).ok(), Some(vec![]));
    for offset in [17, usize::MAX] {
        match parse_fmt_chunk(&[0; 16], offset, 16) {
            Err(e) => assert_eq!(message(e), "Unexpected end of WAV data reading u16"),
            Ok(_) => panic!("expected an error"),
        }
        match parse_fmt_chunk(&[0; 16], offset, 15) {
            Err(e) => assert_eq!(message(e), "fmt chunk too small"),
            Ok(_) => panic!("expected an error"),
        }
    }
}
