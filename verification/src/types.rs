//! Error type and options shared by the public functions.

pub use crate::bits::ONE_BITS;
use vstd::prelude::*;

verus! {

/// What can go wrong while loading audio or a model, or while transcribing.
#[derive(Debug)]
pub enum OxiWhisperError {
    /// The model or audio bytes are malformed.
    InvalidModel(String),
    /// The decoder could not run.
    InferenceFailed(String),
    /// The options contradict each other.
    ConfigError(String),
}

/// Options of a transcription. Temperature and nucleus are single-precision bit patterns.
#[derive(Debug, Clone, Copy)]
pub struct TranscribeOptions<'a> {
    /// Language code; `None` to detect the language.
    pub language: Option<&'a str>,
    /// Number of beams; up to one means no beam search.
    pub beam_width: usize,
    /// Sampling temperature; tokens are sampled if it is above zero.
    pub temperature: u32,
    /// Number of best tokens that are eligible for sampling; 0 for all.
    pub top_k: usize,
    /// Share of the probability that is eligible for sampling; one for all.
    pub top_p: u32,
    /// Whether the output has timestamps.
    pub timestamps: bool,
    /// Text that conditions the output.
    pub initial_prompt: Option<&'a str>,
    /// Tokens that are never chosen.
    pub suppress_tokens: Option<&'a [u32]>,
    /// Size of the n-grams that must not repeat; 0 for no such limit.
    pub no_repeat_ngram_size: usize,
    /// Tokens of the previous chunk.
    pub previous_tokens: Option<&'a [u32]>,
    /// Whether words get times.
    pub word_timestamps: bool,
}

impl<'a> Default for TranscribeOptions<'a> {
    /// Greedy decoding with language detection, without any filter.
    fn default() -> (r: Self)
        ensures
            r.language is None,
            r.beam_width == 1,
            r.temperature == 0,
            r.top_k == 0,
            r.top_p == ONE_BITS,
            !r.timestamps,
            r.initial_prompt is None,
            r.suppress_tokens is None,
            r.no_repeat_ngram_size == 0,
            r.previous_tokens is None,
            !r.word_timestamps,
    {
        TranscribeOptions {
            language: None,
            beam_width: 1,
            temperature: 0,
            top_k: 0,
            top_p: ONE_BITS,
            timestamps: false,
            initial_prompt: None,
            suppress_tokens: None,
            no_repeat_ngram_size: 0,
            previous_tokens: None,
            word_timestamps: false,
        }
    }
}

/// The default options ask for greedy decoding of a detected language without timestamps, and forbid
/// no token.
pub proof fn law_default_is_plain_greedy<'a>(o: TranscribeOptions<'a>, tokens: Seq<u32>, k: int)
    requires
        call_ensures(<TranscribeOptions<'a> as Default>::default, (), o),
    ensures
        o.language is None,
        !crate::bits::above(o.temperature, 0),
        o.beam_width <= 1,
        !o.timestamps,
        !o.word_timestamps,
        o.initial_prompt is None,
        o.previous_tokens is None,
        !crate::decoder::option_laws::forbids(o, tokens, k),
{
}

} // verus!
