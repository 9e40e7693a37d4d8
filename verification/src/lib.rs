//! Whisper speech-to-text: audio files, spectrograms, model files, the text decoder, tokens and
//! word timestamps, with contracts.
//!
//! Numbers are elements of an abstract type `T` with the operators that a function uses, or bit
//! patterns where they are stored or compared. Functions of single numbers (exponential, maximum,
//! Fourier transform, matrix kernels) are handed in by the caller. A contract says which
//! operations, on which operands and in which order, lead to a result, so it holds of rounded
//! arithmetic as well.

pub mod audio;
pub mod bits;
pub mod decode_utils;
pub mod decoder;
pub mod dtw;
pub mod exact;
pub mod gguf;
pub mod languages;
pub mod le;
pub mod mel;
pub mod model;
pub mod num;
pub mod probability;
pub mod quantize;
pub mod ranking;
pub mod rows;
pub mod text;
pub mod tokenizer;
pub mod types;
pub mod whisper_model;
pub mod word_timestamps;

pub use types::{OxiWhisperError, TranscribeOptions};
pub use whisper_model::WhisperModel;
