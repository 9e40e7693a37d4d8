use oxiwhisper::mel::{
    energies, hann_window, log_mel_spectrogram, n_audio_ctx, n_frames_for_samples, n_mels, powers,
    window_frame, MelMath, WHISPER_CHUNK_LENGTH, WHISPER_HOP_LENGTH, WHISPER_N_FFT, WHISPER_N_MELS,
    WHISPER_SAMPLE_RATE,
};
use std::f32::consts::PI;

fn hann() -> Vec<f32> {
    hann_window(&|b: u32| f32::from_bits(b), &|n: usize| n as f32, &|a: f32| a.cos())
}

fn spectrogram(audio: &[f32], mel_filters: &[f32]) -> Vec<f32> {
    let math = MelMath::new(
        |b: u32| f32::from_bits(b),
        |n: usize| n as f32,
        |a: f32| a.cos(),
        |w: Vec<f32>| {
            oxifft::rfft::<f32>(&w).into_iter().map(|c| (c.re, c.im)).collect::<Vec<(f32, f32)>>()
        },
        |a: f32, b: f32| a.max(b),
        |a: f32| a.log10(),
    );
    log_mel_spectrogram(audio, mel_filters, &math)
}

/// Generate a sine wave at the given frequency and sample rate.
fn sine_wave(freq_hz: f32, sample_rate: usize, n_samples: usize) -> Vec<f32> {
    (0..n_samples)
        .map(|i| {
            let t = i as f32 / sample_rate as f32;
            (2.0 * PI * freq_hz * t).sin()
        })
        .collect()
}

/// Create a simple mel filter bank of shape [n_mels, n_bins] with triangular-ish patterns.
/// This is not a real mel filter bank but is sufficient for testing shapes and NaN checks.
fn fake_mel_filters(n_mels: usize, n_bins: usize) -> Vec<f32> {
    let mut filters = vec![0.0f32; n_mels * n_bins];
    for mel in 0..n_mels {
        // Each mel filter has a small triangular response centered at a bin
        let center = (mel + 1) * n_bins / (n_mels + 2);
        let width = n_bins / (n_mels + 2);
        let lo = center.saturating_sub(width);
        let hi = (center + width).min(n_bins - 1);
        for bin in lo..=hi {
            let dist = if bin <= center {
                (bin - lo) as f32 / (center - lo).max(1) as f32
            } else {
                (hi - bin) as f32 / (hi - center).max(1) as f32
            };
            filters[mel * n_bins + bin] = dist.max(0.0);
        }
    }
    filters
}

#[test]
fn test_mel_spectrogram_shape() {
    // 1 second of 440Hz sine at 16kHz
    let audio = sine_wave(440.0, WHISPER_SAMPLE_RATE, WHISPER_SAMPLE_RATE);
    let n_bins = WHISPER_N_FFT / 2 + 1; // 201
    let mel_filters = fake_mel_filters(WHISPER_N_MELS, n_bins);
    assert_eq!(mel_filters.len(), WHISPER_N_MELS * n_bins);

    let result = spectrogram(&audio, &mel_filters);

    let expected_frames = n_frames_for_samples(audio.len());
    assert_eq!(
        result.len(),
        WHISPER_N_MELS * expected_frames,
        "output length should be n_mels * n_frames"
    );
}

#[test]
fn test_mel_no_nan() {
    let audio = sine_wave(1000.0, WHISPER_SAMPLE_RATE, WHISPER_SAMPLE_RATE);
    let n_bins = WHISPER_N_FFT / 2 + 1;
    let mel_filters = fake_mel_filters(WHISPER_N_MELS, n_bins);

    let result = spectrogram(&audio, &mel_filters);

    for (i, val) in result.iter().enumerate() {
        assert!(
            val.is_finite(),
            "NaN or Inf found at index {i}, value={val}"
        );
    }
}

#[test]
fn test_mel_short_audio() {
    // Very short audio: 160 samples (one hop length)
    let audio = sine_wave(440.0, WHISPER_SAMPLE_RATE, WHISPER_HOP_LENGTH);
    let n_bins = WHISPER_N_FFT / 2 + 1;
    let mel_filters = fake_mel_filters(WHISPER_N_MELS, n_bins);

    let result = spectrogram(&audio, &mel_filters);

    let expected_frames = n_frames_for_samples(audio.len());
    assert_eq!(result.len(), WHISPER_N_MELS * expected_frames);
    assert!(expected_frames >= 1, "should have at least 1 frame");

    // No NaN/Inf
    for (i, val) in result.iter().enumerate() {
        assert!(val.is_finite(), "NaN or Inf at index {i}");
    }
}

#[test]
fn test_mel_silence() {
    // All-zero audio should produce valid (not NaN) output
    let audio = vec![0.0f32; WHISPER_SAMPLE_RATE];
    let n_bins = WHISPER_N_FFT / 2 + 1;
    let mel_filters = fake_mel_filters(WHISPER_N_MELS, n_bins);

    let result = spectrogram(&audio, &mel_filters);

    for (i, val) in result.iter().enumerate() {
        assert!(val.is_finite(), "NaN or Inf at index {i} for silence input");
    }
}

#[test]
fn test_n_frames_for_samples() {
    let frames = n_frames_for_samples(WHISPER_SAMPLE_RATE);
    assert_eq!(frames, 101);

    let max_samples = WHISPER_SAMPLE_RATE * WHISPER_CHUNK_LENGTH;
    let frames_max = n_frames_for_samples(max_samples);
    assert_eq!(frames_max, 3000);

    let frames_zero = n_frames_for_samples(0);
    assert_eq!(frames_zero, 1);
}

#[test]
fn frame_counts_at_the_edges() {
    assert_eq!(n_frames_for_samples(1), 2);
    assert_eq!(n_frames_for_samples(160), 2);
    assert_eq!(n_frames_for_samples(161), 3);
    assert_eq!(n_frames_for_samples(usize::MAX), 3000);
    assert_eq!(n_mels(), 80);
    assert_eq!(n_audio_ctx(), 1500);
}

#[test]
fn the_window_rises_from_zero_to_one() {
    let w = hann();
    assert_eq!(w.len(), 400);
    assert_eq!(w[0], 0.0);
    assert_eq!(w[200], 1.0);
    assert!((w[100] - 0.5).abs() < 1e-6);
    for (i, v) in w.iter().enumerate() {
        let expected = 0.5 * (1.0 - (2.0 * PI * i as f32 / WHISPER_N_FFT as f32).cos());
        assert_eq!(*v, expected);
    }
}

#[test]
fn frames_are_windowed_and_padded() {
    let audio: Vec<f32> = (0..200).map(|i| i as f32).collect();
    let w = window_frame(&audio, &[2.0; 400], 0.0, 1);
    assert_eq!(w.len(), 512);
    assert_eq!(w[0], 320.0);
    assert_eq!(w[39], 398.0);
    assert!(w[40..].iter().all(|x| *x == 0.0));
}

#[test]
fn powers_are_sums_of_squares() {
    let spectrum = vec![(3.0f32, 4.0f32); 257];
    assert_eq!(powers(&spectrum), vec![25.0; 201]);
}

#[test]
fn energies_are_laid_out_channel_by_channel() {
    let mut filters = vec![0.0f32; 80 * 201];
    filters[0] = 1.0;
    filters[201 + 1] = 2.0;
    let mut first = vec![0.0f32; 201];
    first[0] = 5.0;
    first[1] = 7.0;
    let mut second = vec![0.0f32; 201];
    second[1] = 11.0;
    let e = energies(&filters, &vec![first, second], 0.0);
    assert_eq!(e.len(), 160);
    assert_eq!(e[..4], [5.0, 0.0, 14.0, 22.0]);
    assert!(e[4..].iter().all(|x| *x == 0.0));
}

#[test]
fn levels_of_silence_are_constant() {
    let out = spectrogram(&[0.0; 10], &vec![1.0; 80 * 201]);
    assert_eq!(out.len(), 160);
    let level = (1e-10f32.log10() + 4.0) / 4.0;
    assert!(out.iter().all(|x| *x == level));
}

#[test]
fn levels_reach_down_to_the_range() {
    // One loud channel; the others lie eight decades below it.
    let mut filters = vec![0.0f32; 80 * 201];
    filters[..201].fill(1.0);
    let audio: Vec<f32> = (0..400).map(|i| if i == 200 { 1.0 } else { 0.0 }).collect();
    let out = spectrogram(&audio, &filters);
    let top = out.iter().copied().fold(f32::NEG_INFINITY, f32::max);
    let bottom = out.iter().copied().fold(f32::INFINITY, f32::min);
    assert!((top - bottom - 2.0).abs() < 1e-5);
}
