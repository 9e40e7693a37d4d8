//! Word-level timestamps: wires the alignment into the decoder pipeline.
//!
//! Beam search has no word timestamps.

pub mod laws;

use crate::dtw::{build_word_segments, WordSegment};
use crate::mel::{log_mel_spectrogram, MelMath};
use crate::model::VocabEntry;
use crate::tokenizer;
use crate::types::{OxiWhisperError, TranscribeOptions};
use core::ops::{Add, Div, Mul, Sub};
use vstd::prelude::*;
use vstd::slice::slice_to_vec;
use vstd::string::*;

verus! {

/// Hop length of the alignment, in samples.
pub const DTW_HOP_LENGTH: usize = 160;

/// Sample rate of the alignment.
pub const DTW_SAMPLE_RATE: usize = 16000;

/// A finished decode with what alignment needs.
pub struct AlignedDecode<T> {
    /// Decoded output token ids.
    pub tokens: Vec<u32>,
    /// Per-token log-probability.
    pub token_probs: Vec<T>,
    /// Detected language code.
    pub detected_language: Option<String>,
    /// Cross-attention weights `[n_tokens, enc_len]`, row-major.
    pub cross_attention: Option<Vec<T>>,
    /// Number of encoder frames.
    pub enc_len: usize,
    /// Probability that there is no speech.
    pub no_speech_prob: T,
}

/// A transcription with per-word start/end times.
#[derive(Debug, Clone, PartialEq)]
pub struct WordTimedTranscript<T> {
    /// Full concatenated text of all words.
    pub text: String,
    /// Per-word segments with timing and confidence.
    pub words: Vec<WordSegment<T>>,
    /// Detected or specified language code.
    pub language: Option<String>,
    /// Probability that the segment is silence (no speech), in `[0, 1]`.
    pub no_speech_prob: T,
}

/// The texts that tokens stand for, one by one.
pub open spec fn token_texts(tokens: Seq<u32>, vocab: Seq<Seq<char>>) -> Seq<Seq<char>> {
    tokens.map_values(|t: u32| tokenizer::token_text(t, vocab))
}

/// The texts of words, one behind the other.
pub open spec fn joined_words<T>(words: Seq<WordSegment<T>>) -> Seq<char>
    decreases words.len(),
{
    if words.len() == 0 {
        Seq::empty()
    } else {
        joined_words(words.drop_last()) + words.last().word@
    }
}

/// `times` are what the alignment gave for attention weights.
pub open spec fn are_times<T, A: Fn(Vec<T>, usize, usize, usize, usize) -> Vec<(T, T)>>(
    align: A,
    attention: Seq<T>,
    n_tokens: int,
    enc_len: usize,
    times: Seq<(T, T)>,
) -> bool {
    exists|w: Vec<T>, n: usize, r: Vec<(T, T)>| #[trigger]
        call_ensures(align, (w, n, enc_len, DTW_HOP_LENGTH, DTW_SAMPLE_RATE), r) && w@ == attention
            && n == n_tokens && r@ == times
}

/// The transcript of a decode: without attention weights or tokens the plain text, else the words
/// of the aligned tokens and their joined text.
pub open spec fn is_transcript<
    T: Add<Output = T> + Div<Output = T>,
    A: Fn(Vec<T>, usize, usize, usize, usize) -> Vec<(T, T)>,
    N: Fn(usize) -> T,
>(
    align: A,
    zero: T,
    count: N,
    decode: AlignedDecode<T>,
    vocab: Seq<Seq<char>>,
    text: Seq<char>,
    words: Seq<WordSegment<T>>,
) -> bool {
    if decode.cross_attention is None || decode.tokens@.len() == 0 {
        text == tokenizer::decoded(decode.tokens@, vocab) && words.len() == 0
    } else {
        &&& exists|times: Seq<(T, T)>| #[trigger]
            are_times(
                align,
                decode.cross_attention->0@,
                decode.tokens@.len() as int,
                decode.enc_len,
                times,
            ) && crate::dtw::are_words(
                token_texts(decode.tokens@, vocab),
                times,
                decode.token_probs@,
                zero,
                count,
                words,
            )
        &&& text == joined_words(words)
    }
}

/// Executable form of [`token_texts`].
fn get_token_texts(tokens: &Vec<u32>, vocab: &[VocabEntry]) -> (r: Vec<String>)
    ensures
        crate::dtw::string_views(r@) == token_texts(tokens@, crate::model::texts(vocab@)),
{
    let ghost words = crate::model::texts(vocab@);
    let mut r: Vec<String> = Vec::with_capacity(tokens.len());
    let mut i: usize = 0;
    while i < tokens.len()
        invariant
            i <= tokens@.len(),
            words == crate::model::texts(vocab@),
            r@.len() == i,
            forall|j: int|
                0 <= j < i ==> (#[trigger] r@[j])@ == tokenizer::token_text(tokens@[j], words),
        decreases tokens@.len() - i,
    {
        let id: usize = tokens[i] as usize;
        if id < vocab.len() && !crate::text::is_special_text(vocab[id].text.as_str()) {
            assert(words[id as int] == vocab@[id as int].text@);
            r.push(vocab[id].text.as_str().to_string());
        } else {
            proof {
                reveal_strlit("");
                assert(""@ =~= Seq::<char>::empty());
                if id < vocab@.len() {
                    assert(words[id as int] == vocab@[id as int].text@);
                }
            }
            r.push("".to_string());
        }
        i = i + 1;
    }
    assert(crate::dtw::string_views(r@) =~= token_texts(tokens@, words));
    r
}

/// Executable form of [`joined_words`].
fn join_words<T>(words: &Vec<WordSegment<T>>) -> (text: String)
    ensures
        text@ == joined_words(words@),
{
    let mut text: String = "".to_string();
    proof {
        reveal_strlit("");
        assert(text@ =~= joined_words(words@.take(0)));
    }
    let mut i: usize = 0;
    while i < words.len()
        invariant
            i <= words@.len(),
            text@ == joined_words(words@.take(i as int)),
        decreases words@.len() - i,
    {
        assert(words@.take(i + 1).drop_last() =~= words@.take(i as int));
        text.append(words[i].word.as_str());
        i = i + 1;
    }
    assert(words@.take(i as int) =~= words@);
    text
}

/// Build a [`WordTimedTranscript`] from a finished decode.
///
/// `align` gives the (start, end) times of tokens from attention weights, the number of tokens,
/// the number of frames, the hop length and the sample rate. Special tokens stand for no text and
/// are dropped.
pub fn build_word_timed_transcript<
    T: Copy + Add<Output = T> + Div<Output = T>,
    A: Fn(Vec<T>, usize, usize, usize, usize) -> Vec<(T, T)>,
    N: Fn(usize) -> T,
>(
    decode_result: &AlignedDecode<T>,
    vocab: &[VocabEntry],
    language: Option<String>,
    align: &A,
    zero: T,
    count: &N,
) -> (r: WordTimedTranscript<T>)
    requires
        forall|w: Vec<T>, n: usize, e: usize, h: usize, s: usize| #[trigger]
            call_requires(*align, (w, n, e, h, s)),
        forall|n: usize| #[trigger] call_requires(*count, (n,)),
        crate::num::total_add::<T>(),
        crate::num::total_div::<T>(),
    ensures
        is_transcript(
            *align,
            zero,
            *count,
            *decode_result,
            crate::model::texts(vocab@),
            r.text@,
            r.words@,
        ),
        r.language == language,
        r.no_speech_prob == decode_result.no_speech_prob,
{
    let no_speech_prob: T = decode_result.no_speech_prob;
    let n_tokens: usize = decode_result.tokens.len();
    let attention: &Vec<T> = match &decode_result.cross_attention {
        Some(a) if n_tokens > 0 => a,
        _ => {
            return WordTimedTranscript {
                text: tokenizer::decode(decode_result.tokens.as_slice(), vocab),
                words: Vec::new(),
                language,
                no_speech_prob,
            };
        },
    };
    let texts: Vec<String> = get_token_texts(&decode_result.tokens, vocab);
    let weights: Vec<T> = slice_to_vec(attention.as_slice());
    let ghost given = weights;
    let times: Vec<(T, T)> = align(
        weights,
        n_tokens,
        decode_result.enc_len,
        DTW_HOP_LENGTH,
        DTW_SAMPLE_RATE,
    );
    proof {
        assert(call_ensures(
            *align,
            (given, n_tokens, decode_result.enc_len, DTW_HOP_LENGTH, DTW_SAMPLE_RATE),
            times,
        ));
        assert(are_times(
            *align,
            attention@,
            n_tokens as int,
            decode_result.enc_len,
            times@,
        ));
    }
    let words: Vec<WordSegment<T>> = build_word_segments(
        texts.as_slice(),
        times.as_slice(),
        decode_result.token_probs.as_slice(),
        zero,
        count,
    );
    let text: String = join_words(&words);
    WordTimedTranscript { text, words, language, no_speech_prob }
}

/// The message that refuses a beam search.
pub open spec fn beam_refusal() -> Seq<char> {
    "word_timestamps is not supported with beam_width > 1; use greedy or temperature sampling"@
}

/// The stages of a transcription between spectrogram and alignment.
pub struct Stages<C, D> {
    /// The encoder: spectrogram `[n_mels, n_frames]`, number of channels, number of frames.
    pub encode: C,
    /// The decoder: encoder output, options.
    pub decode: D,
}

/// What a spectrogram is taken of.
pub struct Sound<'b, T> {
    /// 16 kHz mono audio.
    pub audio: &'b [T],
    /// Mel filterbank.
    pub mel_filters: &'b [T],
}

impl<T> Sound<'_, T> {
    /// The filterbank has the length that a spectrogram needs.
    pub open spec fn fits(&self) -> bool {
        self.mel_filters@.len() == crate::mel::WHISPER_N_MELS * crate::mel::N_BINS
    }
}

/// How the stages lead to a decode, or to the error of the stage that failed: the spectrogram
/// `mel`, its encoding `enc`, and the decode `dec` of that with word timestamps.
pub open spec fn staged<
    'a,
    T: Add<Output = T> + Sub<Output = T> + Mul<Output = T> + Div<Output = T>,
    X,
    B: Fn(u32) -> T,
    N: Fn(usize) -> T,
    K: Fn(T) -> T,
    F: Fn(Vec<T>) -> Vec<(T, T)>,
    M: Fn(T, T) -> T,
    L: Fn(T) -> T,
    C: Fn(Vec<T>, usize, usize) -> Result<X, String>,
    D: Fn(X, TranscribeOptions<'a>) -> Result<AlignedDecode<T>, String>,
>(
    sound: Sound<'_, T>,
    math: MelMath<T, B, N, K, F, M, L>,
    stages: Stages<C, D>,
    opts: TranscribeOptions<'a>,
    n_mels: usize,
    result: Result<AlignedDecode<T>, OxiWhisperError>,
) -> bool {
    exists|mel: Vec<T>, enc: Result<X, String>|
        crate::mel::is_spectrogram(sound.audio@, sound.mel_filters@, math, mel@) && #[trigger] call_ensures(
            stages.encode,
            (mel, n_mels, (mel@.len() / n_mels as nat) as usize),
            enc,
        ) && is_decode_of(stages.decode, opts, enc, result)
}

/// `result` is the decode of an encoding, or the error of the stage that failed.
pub open spec fn is_decode_of<
    'a,
    T,
    X,
    D: Fn(X, TranscribeOptions<'a>) -> Result<AlignedDecode<T>, String>,
>(
    decode: D,
    opts: TranscribeOptions<'a>,
    enc: Result<X, String>,
    result: Result<AlignedDecode<T>, OxiWhisperError>,
) -> bool {
    match enc {
        Err(e) => result matches Err(OxiWhisperError::InvalidModel(m)) && m == e,
        Ok(x) => exists|dec: Result<AlignedDecode<T>, String>| #[trigger]
            call_ensures(
                decode,
                (x, (TranscribeOptions { word_timestamps: true, ..opts })),
                dec,
            ) && match dec {
                Ok(d) => result matches Ok(r) && r == d,
                Err(e) => result matches Err(OxiWhisperError::InferenceFailed(m)) && m == e,
            },
    }
}

/// Runs the stages.
fn run_stages<
    'a,
    T: Copy + Add<Output = T> + Sub<Output = T> + Mul<Output = T> + Div<Output = T>,
    X,
    B: Fn(u32) -> T,
    N: Fn(usize) -> T,
    K: Fn(T) -> T,
    F: Fn(Vec<T>) -> Vec<(T, T)>,
    M: Fn(T, T) -> T,
    L: Fn(T) -> T,
    C: Fn(Vec<T>, usize, usize) -> Result<X, String>,
    D: Fn(X, TranscribeOptions<'a>) -> Result<AlignedDecode<T>, String>,
>(
    sound: &Sound<'_, T>,
    math: &MelMath<T, B, N, K, F, M, L>,
    stages: &Stages<C, D>,
    opts: &TranscribeOptions<'a>,
    n_mels: usize,
) -> (r: Result<AlignedDecode<T>, OxiWhisperError>)
    requires
        n_mels > 0,
        sound.fits(),
        math.ready(),
        crate::num::total_add::<T>(),
        crate::num::total_sub::<T>(),
        crate::num::total_mul::<T>(),
        crate::num::total_div::<T>(),
        forall|m: Vec<T>, a: usize, b: usize| #[trigger] call_requires(stages.encode, (m, a, b)),
        forall|x: X, o: TranscribeOptions<'a>| #[trigger] call_requires(stages.decode, (x, o)),
    ensures
        staged(*sound, *math, *stages, *opts, n_mels, r),
{
    let mel: Vec<T> = log_mel_spectrogram(sound.audio, sound.mel_filters, math);
    let ghost given = mel;
    let n_frames: usize = mel.len() / n_mels;
    let enc: Result<X, String> = (stages.encode)(mel, n_mels, n_frames);
    let ghost encoding = enc;
    assert(call_ensures(stages.encode, (given, n_mels, n_frames), encoding));
    let word_opts: TranscribeOptions<'a> = TranscribeOptions { word_timestamps: true, ..*opts };
    let r: Result<AlignedDecode<T>, OxiWhisperError> = match enc {
        Ok(x) => {
            let ghost before = x;
            let dec: Result<AlignedDecode<T>, String> = (stages.decode)(x, word_opts);
            assert(call_ensures(stages.decode, (before, word_opts), dec));
            match dec {
                Ok(d) => Ok(d),
                Err(e) => Err(OxiWhisperError::InferenceFailed(e)),
            }
        },
        Err(e) => Err(OxiWhisperError::InvalidModel(e)),
    };
    assert(is_decode_of(stages.decode, *opts, encoding, r));
    r
}

/// `t` is the transcript of the decode that the stages gave, with the language and the probability of
/// silence that the decode reports.
pub open spec fn is_word_transcription<
    'a,
    T: Add<Output = T> + Sub<Output = T> + Mul<Output = T> + Div<Output = T>,
    X,
    B: Fn(u32) -> T,
    N: Fn(usize) -> T,
    K: Fn(T) -> T,
    F: Fn(Vec<T>) -> Vec<(T, T)>,
    M: Fn(T, T) -> T,
    L: Fn(T) -> T,
    C: Fn(Vec<T>, usize, usize) -> Result<X, String>,
    D: Fn(X, TranscribeOptions<'a>) -> Result<AlignedDecode<T>, String>,
    A: Fn(Vec<T>, usize, usize, usize, usize) -> Vec<(T, T)>,
>(
    sound: Sound<'_, T>,
    math: MelMath<T, B, N, K, F, M, L>,
    opts: TranscribeOptions<'a>,
    n_mels: usize,
    vocab: Seq<Seq<char>>,
    stages: Stages<C, D>,
    align: A,
    t: WordTimedTranscript<T>,
) -> bool {
    exists|a: AlignedDecode<T>| #[trigger]
        staged(
            sound,
            math,
            stages,
            opts,
            n_mels,
            Ok::<AlignedDecode<T>, OxiWhisperError>(a),
        ) && is_transcript(align, math.zero, math.count, a, vocab, t.text@, t.words@)
            && crate::decoder::text_view(t.language) == crate::decoder::text_view(
            a.detected_language,
        ) && t.no_speech_prob == a.no_speech_prob
}

/// Run mel → encode → decode with word timestamps and align the result.
///
/// Word timestamps are only supported with greedy or temperature sampling (`beam_width <= 1`).
pub fn transcribe_words_impl<
    'a,
    T: Copy + Add<Output = T> + Sub<Output = T> + Mul<Output = T> + Div<Output = T>,
    X,
    B: Fn(u32) -> T,
    N: Fn(usize) -> T,
    K: Fn(T) -> T,
    F: Fn(Vec<T>) -> Vec<(T, T)>,
    M: Fn(T, T) -> T,
    L: Fn(T) -> T,
    C: Fn(Vec<T>, usize, usize) -> Result<X, String>,
    D: Fn(X, TranscribeOptions<'a>) -> Result<AlignedDecode<T>, String>,
    A: Fn(Vec<T>, usize, usize, usize, usize) -> Vec<(T, T)>,
>(
    sound: &Sound<'_, T>,
    math: &MelMath<T, B, N, K, F, M, L>,
    opts: &TranscribeOptions<'a>,
    n_mels: usize,
    vocab: &[VocabEntry],
    stages: &Stages<C, D>,
    align: &A,
) -> (r: Result<WordTimedTranscript<T>, OxiWhisperError>)
    requires
        opts.beam_width <= 1 ==> n_mels > 0 && sound.fits(),
        math.ready(),
        forall|m: Vec<T>, a: usize, b: usize| #[trigger] call_requires(stages.encode, (m, a, b)),
        forall|x: X, o: TranscribeOptions<'a>| #[trigger] call_requires(stages.decode, (x, o)),
        forall|w: Vec<T>, n: usize, e: usize, h: usize, s: usize| #[trigger]
            call_requires(*align, (w, n, e, h, s)),
        forall|n: usize| #[trigger] call_requires(math.count, (n,)),
        crate::num::total_add::<T>(),
        crate::num::total_sub::<T>(),
        crate::num::total_mul::<T>(),
        crate::num::total_div::<T>(),
    ensures
        opts.beam_width > 1 ==> (r matches Err(OxiWhisperError::ConfigError(m)) && m@
            == beam_refusal()),
        opts.beam_width <= 1 ==> exists|d: Result<AlignedDecode<T>, OxiWhisperError>| #[trigger]
            staged(*sound, *math, *stages, *opts, n_mels, d) && match d {
                Ok(a) => r is Ok && is_transcript(
                    *align,
                    math.zero,
                    math.count,
                    a,
                    crate::model::texts(vocab@),
                    r->Ok_0.text@,
                    r->Ok_0.words@,
                ) && crate::decoder::text_view(r->Ok_0.language) == crate::decoder::text_view(
                    a.detected_language,
                ) && r->Ok_0.no_speech_prob == a.no_speech_prob,
                Err(e) => r matches Err(f) && f == e,
            },
        opts.beam_width <= 1 && r is Ok ==> exists|
            x: X,
            o: TranscribeOptions<'a>,
            dec: Result<AlignedDecode<T>, String>,
        | #[trigger]
            call_ensures(stages.decode, (x, o), dec) && dec is Ok && r->Ok_0.no_speech_prob
                == dec->Ok_0.no_speech_prob && o.word_timestamps && o.language == opts.language
                && o.beam_width == opts.beam_width && o.temperature == opts.temperature && o.top_k
                == opts.top_k && o.top_p == opts.top_p && o.timestamps == opts.timestamps
                && o.initial_prompt == opts.initial_prompt && o.suppress_tokens
                == opts.suppress_tokens && o.no_repeat_ngram_size == opts.no_repeat_ngram_size
                && o.previous_tokens == opts.previous_tokens,
        r is Ok ==> opts.beam_width <= 1 && is_word_transcription(
            *sound,
            *math,
            *opts,
            n_mels,
            crate::model::texts(vocab@),
            *stages,
            *align,
            r->Ok_0,
        ),
{
    if opts.beam_width > 1 {
        return Err(
            OxiWhisperError::ConfigError(
                "word_timestamps is not supported with beam_width > 1; use greedy or temperature sampling".to_string(),
            ),
        );
    }
    let d: Result<AlignedDecode<T>, OxiWhisperError> = run_stages(
        sound,
        math,
        stages,
        opts,
        n_mels,
    );
    let ghost given = d;
    assert(staged(*sound, *math, *stages, *opts, n_mels, given));
    match d {
        Ok(a) => {
            let language: Option<String> = match &a.detected_language {
                Some(l) => Some(l.as_str().to_string()),
                None => None,
            };
            Ok(build_word_timed_transcript(&a, vocab, language, align, math.zero, &math.count))
        },
        Err(e) => Err(e),
    }
}

} // verus!
