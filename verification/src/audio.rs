//! WAV audio: RIFF/WAVE parsing, downmix to mono, resampling to 16 kHz.
//!
//! Parsing gives the samples as the file holds them, those of floating point within the bounds.
//! Turning them into numbers between -1 and 1, and the arithmetic on those, rests on functions of
//! the caller.

pub mod laws;
pub mod signal;
pub mod signal_laws;
pub mod wav;

pub use signal::{
    convert_sample, downmix_to_mono, load_raw_pcm, load_wav_from_bytes, resample_linear, AudioMath,
};
pub use wav::{
    decode_samples, parse_fmt_chunk, parse_wav, read_f32_le, read_i24_le, read_i32_le, read_u16_le,
    read_u32_le, tag_matches, FmtChunk, Sample, WavAudio,
};
