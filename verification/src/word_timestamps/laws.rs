//! What the stages of a transcription are handed, and what becomes of their results.

use crate::dtw::{self, WordSegment};
use crate::mel::MelMath;
use crate::types::{OxiWhisperError, TranscribeOptions};
use crate::word_timestamps::{AlignedDecode, Sound, Stages, WordTimedTranscript};
use core::ops::{Add, Div, Mul, Sub};
use vstd::prelude::*;

verus! {

/// The encoder gets the spectrogram of the audio with its true number of frames, and the decoder
/// gets what the encoder gave, with the caller's options: every field is the caller's, but for the
/// word timestamps, which are asked for. A decode that succeeds is the result; an error is that of
/// the stage that failed.
pub proof fn law_stages_get_their_inputs<
    'a,
    T: Add<Output = T> + Sub<Output = T> + Mul<Output = T> + Div<Output = T>,
    X,
    B: Fn(u32) -> T,
    N: Fn(usize) -> T,
    K: Fn(T) -> T,
    F: Fn(Vec<T>) -> Vec<(T, T)>,
    M: Fn(T, T) -> T,
    L: Fn(T) -> T,
    C: Fn(Vec<T>, usize, usize) -> Result<X, String>,
    D: Fn(X, TranscribeOptions<'a>) -> Result<AlignedDecode<T>, String>,
>(
    sound: Sound<'_, T>,
    math: MelMath<T, B, N, K, F, M, L>,
    stages: Stages<C, D>,
    opts: TranscribeOptions<'a>,
    result: Result<AlignedDecode<T>, OxiWhisperError>,
)
    requires
        crate::word_timestamps::staged(sound, math, stages, opts, 80, result),
        math.ready(),
    ensures
        exists|spectrogram: Vec<T>, channels: usize, frames: usize, enc: Result<X, String>|
            #![trigger call_ensures(stages.encode, (spectrogram, channels, frames), enc)]
            {
                &&& call_ensures(stages.encode, (spectrogram, channels, frames), enc)
                &&& crate::mel::is_spectrogram(
                    sound.audio@,
                    sound.mel_filters@,
                    math,
                    spectrogram@,
                )
                &&& channels == 80
                &&& frames == crate::mel::frames_for(sound.audio@.len())
                &&& enc is Err ==> result == Err::<AlignedDecode<T>, OxiWhisperError>(
                    OxiWhisperError::InvalidModel(enc->Err_0),
                )
                &&& enc is Ok ==> exists|
                    o: TranscribeOptions<'a>,
                    dec: Result<AlignedDecode<T>, String>,
                |
                    #![trigger call_ensures(stages.decode, (enc->Ok_0, o), dec)]
                    {
                        &&& call_ensures(stages.decode, (enc->Ok_0, o), dec)
                        &&& o.word_timestamps
                        &&& o.language == opts.language
                        &&& o.beam_width == opts.beam_width
                        &&& o.temperature == opts.temperature
                        &&& o.top_k == opts.top_k
                        &&& o.top_p == opts.top_p
                        &&& o.timestamps == opts.timestamps
                        &&& o.initial_prompt == opts.initial_prompt
                        &&& o.suppress_tokens == opts.suppress_tokens
                        &&& o.no_repeat_ngram_size == opts.no_repeat_ngram_size
                        &&& o.previous_tokens == opts.previous_tokens
                        &&& match dec {
                            Ok(d) => result == Ok::<AlignedDecode<T>, OxiWhisperError>(d),
                            Err(e) => result == Err::<AlignedDecode<T>, OxiWhisperError>(
                                OxiWhisperError::InferenceFailed(e),
                            ),
                        }
                    }
            },
{
    let n_mels: usize = 80;
    let (m, enc) = choose|m: Vec<T>, enc: Result<X, String>|
        crate::mel::is_spectrogram(sound.audio@, sound.mel_filters@, math, m@)
            && #[trigger] call_ensures(
            stages.encode,
            (m, n_mels, (m@.len() / n_mels as nat) as usize),
            enc,
        ) && crate::word_timestamps::is_decode_of(stages.decode, opts, enc, result);
    let (fr, e, top, peak) = choose|fr: Seq<Vec<T>>, e: Seq<T>, top: T, peak: T| #[trigger]
        crate::mel::is_log_mel(sound.audio@, sound.mel_filters@, math, fr, e, top, peak, m@);
    let frames = (m@.len() / n_mels as nat) as usize;
    assert(m@.len() == 80 * crate::mel::frames_for(sound.audio@.len()));
    assert(m@.len() / 80nat == crate::mel::frames_for(sound.audio@.len()));
    assert(call_ensures(stages.encode, (m, n_mels, frames), enc));
    if enc is Ok {
        let o = TranscribeOptions { word_timestamps: true, ..opts };
        let dec = choose|dec: Result<AlignedDecode<T>, String>| #[trigger]
            call_ensures(stages.decode, (enc->Ok_0, o), dec) && match dec {
                Ok(d) => result matches Ok(r) && r == d,
                Err(e) => result matches Err(OxiWhisperError::InferenceFailed(x)) && x == e,
            };
        assert(call_ensures(stages.decode, (enc->Ok_0, o), dec));
    }
}

/// A run of texts splits at every token.
proof fn lemma_text_splits(texts: Seq<Seq<char>>, a: int, b: int, c: int)
    requires
        a <= b <= c,
    ensures
        dtw::laws::text_between(texts, a, c) == dtw::laws::text_between(texts, a, b)
            + dtw::laws::text_between(texts, b, c),
    decreases c - b,
{
    if b < c {
        lemma_text_splits(texts, a, b, c - 1);
        assert(dtw::laws::text_between(texts, a, c) =~= dtw::laws::text_between(texts, a, b)
            + dtw::laws::text_between(texts, b, c));
    } else {
        assert(dtw::laws::text_between(texts, b, c) == Seq::<char>::empty());
        assert(dtw::laws::text_between(texts, a, c) =~= dtw::laws::text_between(texts, a, b)
            + dtw::laws::text_between(texts, b, c));
    }
}

/// Where word `k` begins, or where the last one ends.
spec fn bound(texts: Seq<Seq<char>>, starts: Seq<int>, k: int) -> int {
    if k < starts.len() {
        starts[k]
    } else {
        texts.len() as int
    }
}

/// The joined texts of the first `k` words.
proof fn lemma_joined<T>(
    texts: Seq<Seq<char>>,
    starts: Seq<int>,
    words: Seq<WordSegment<T>>,
    k: int,
)
    requires
        starts.len() == words.len(),
        forall|i: int| 0 <= i < starts.len() ==> 0 <= #[trigger] starts[i] < texts.len(),
        forall|i: int, j: int|
            0 <= i < j < starts.len() ==> #[trigger] starts[i] < #[trigger] starts[j],
        forall|i: int|
            0 <= i < words.len() ==> (#[trigger] words[i]).word@ == dtw::laws::text_between(
                texts,
                starts[i],
                bound(texts, starts, i + 1),
            ),
        0 < k <= words.len(),
    ensures
        crate::word_timestamps::joined_words(words.take(k)) == dtw::laws::text_between(
            texts,
            starts[0],
            bound(texts, starts, k),
        ),
    decreases k,
{
    let part = words.take(k);
    assert(part.drop_last() =~= words.take(k - 1));
    assert(part.last() == words[k - 1]);
    let a = starts[0];
    let b = starts[k - 1];
    let c = bound(texts, starts, k);
    if k > 1 {
        lemma_joined(texts, starts, words, k - 1);
        assert(starts[0] < starts[k - 1]);
        if k < starts.len() {
            assert(starts[k - 1] < starts[k]);
        }
        lemma_text_splits(texts, a, b, c);
    } else {
        assert(words.take(0) =~= Seq::<WordSegment<T>>::empty());
        assert(crate::word_timestamps::joined_words(words.take(0)) == Seq::<char>::empty());
        assert(crate::word_timestamps::joined_words(part)
            =~= dtw::laws::text_between(texts, a, c));
    }
}

/// A transcript keeps the text: without attention weights or tokens it is what the tokens decode to,
/// with no words; else it is the trimmed texts of all tokens, one behind the other, which are also
/// the texts of its words. The alignment is asked for the attention weights of all tokens over all
/// encoder frames, at hops of 160 samples and 16000 samples a second.
pub proof fn law_transcript_keeps_text<
    T: Add<Output = T> + Div<Output = T>,
    A: Fn(Vec<T>, usize, usize, usize, usize) -> Vec<(T, T)>,
    N: Fn(usize) -> T,
>(
    align: A,
    zero: T,
    count: N,
    decode: AlignedDecode<T>,
    vocab: Seq<Seq<char>>,
    text: Seq<char>,
    words: Seq<WordSegment<T>>,
)
    requires
        crate::word_timestamps::is_transcript(align, zero, count, decode, vocab, text, words),
    ensures
        decode.cross_attention is None || decode.tokens@.len() == 0 ==> text
            == crate::tokenizer::decoded(decode.tokens@, vocab) && words.len() == 0,
        decode.cross_attention is Some && decode.tokens@.len() > 0 ==> {
            let texts = Seq::new(
                decode.tokens@.len(),
                |i: int| crate::tokenizer::decoded(seq![decode.tokens@[i]], vocab),
            );
            &&& text == dtw::laws::text_between(texts, 0, texts.len() as int)
            &&& exists|weights: Vec<T>, n: usize, times: Vec<(T, T)>|
                #![trigger call_ensures(align, (weights, n, decode.enc_len, 160usize, 16000usize), times)]
                {
                    &&& call_ensures(
                        align,
                        (weights, n, decode.enc_len, 160usize, 16000usize),
                        times,
                    )
                    &&& weights@ == decode.cross_attention->0@
                    &&& n == decode.tokens@.len()
                    &&& dtw::are_words(
                        texts,
                        times@,
                        decode.token_probs@,
                        zero,
                        count,
                        words,
                    )
                }
        },
{
    if decode.cross_attention is Some && decode.tokens@.len() > 0 {
        let tokens = decode.tokens@;
        let probs = decode.token_probs@;
        let texts = Seq::new(tokens.len(), |i: int| crate::tokenizer::decoded(seq![tokens[i]], vocab));
        let own = crate::word_timestamps::token_texts(tokens, vocab);
        assert forall|i: int| 0 <= i < tokens.len() implies own[i] == texts[i] by {
            let one = seq![tokens[i]];
            assert(one.drop_last() =~= Seq::<u32>::empty());
            assert(crate::tokenizer::decoded(one.drop_last(), vocab) == Seq::<char>::empty());
            assert(crate::tokenizer::decoded(one, vocab) =~= crate::tokenizer::token_text(
                tokens[i],
                vocab,
            ));
        }
        assert(own =~= texts);
        let times = choose|times: Seq<(T, T)>| #[trigger]
            crate::word_timestamps::are_times(
                align,
                decode.cross_attention->0@,
                tokens.len() as int,
                decode.enc_len,
                times,
            ) && dtw::are_words(own, times, probs, zero, count, words);
        let (w, n, r) = choose|w: Vec<T>, n: usize, r: Vec<(T, T)>| #[trigger]
            call_ensures(
                align,
                (
                    w,
                    n,
                    decode.enc_len,
                    crate::word_timestamps::DTW_HOP_LENGTH,
                    crate::word_timestamps::DTW_SAMPLE_RATE,
                ),
                r,
            ) && w@ == decode.cross_attention->0@ && n == tokens.len() && r@ == times;
        assert(call_ensures(align, (w, n, decode.enc_len, 160usize, 16000usize), r));
        lemma_words_hold_text(texts, times, probs, zero, count, words);
    }
}

/// The joined texts of all words.
proof fn lemma_words_hold_text<T: Add<Output = T> + Div<Output = T>, N: Fn(usize) -> T>(
    texts: Seq<Seq<char>>,
    times: Seq<(T, T)>,
    probs: Seq<T>,
    zero: T,
    count: N,
    words: Seq<WordSegment<T>>,
)
    requires
        dtw::are_words(texts, times, probs, zero, count, words),
    ensures
        crate::word_timestamps::joined_words(words) == dtw::laws::text_between(
            texts,
            0,
            texts.len() as int,
        ),
{
    dtw::laws::law_words_lie_between_word_starts(texts, times, probs, zero);
    let all = dtw::words_of(texts, times, probs, zero, dtw::visible(texts), 0);
    let starts = choose|starts: Seq<int>|
        #![trigger starts.len()]
        {
            &&& starts.len() == all.len()
            &&& forall|k: int, l: int|
                0 <= k < l < starts.len() ==> #[trigger] starts[k] < #[trigger] starts[l]
            &&& forall|i: int| #[trigger]
                starts.contains(i) <==> dtw::laws::begins_word(texts, i)
            &&& forall|k: int|
                0 <= k < all.len() ==> dtw::laws::is_word(
                    texts,
                    times,
                    probs,
                    zero,
                    starts[k],
                    if k + 1 < starts.len() {
                        starts[k + 1]
                    } else {
                        texts.len() as int
                    },
                    #[trigger] all[k],
                )
        };
    let n = texts.len() as int;
    assert forall|i: int| 0 <= i < starts.len() implies 0 <= #[trigger] starts[i] < texts.len() by {
        assert(starts.contains(starts[i]));
    }
    let first = if starts.len() > 0 {
        starts[0]
    } else {
        n
    };
    assert forall|i: int| 0 <= i < first implies !#[trigger] dtw::laws::has_text(texts, i) by {
        if dtw::laws::has_text(texts, i) {
            lemma_first_text(texts, i);
            let j = choose|j: int| 0 <= j <= i && #[trigger] dtw::laws::begins_word(texts, j);
            assert(starts.contains(j));
            let k = choose|k: int| 0 <= k < starts.len() && starts[k] == j;
            if k > 0 {
                assert(starts[0] < starts[k]);
            }
        }
    }
    dtw::laws::lemma_nothing_between(texts, probs, 0, 0, first);
    assert(dtw::laws::text_between(texts, 0, 0) == Seq::<char>::empty());
    assert(dtw::laws::text_between(texts, 0, first) == Seq::<char>::empty());
    assert(words.take(words.len() as int) =~= words);
    if starts.len() > 0 {
        assert forall|i: int| 0 <= i < words.len() implies (#[trigger] words[i]).word@
            == dtw::laws::text_between(texts, starts[i], bound(texts, starts, i + 1)) by {
            assert(dtw::stands_for(zero, count, words[i], all[i]));
        }
        lemma_joined(texts, starts, words, words.len() as int);
        lemma_text_splits(texts, 0, first, n);
        assert(dtw::laws::text_between(texts, 0, n) =~= dtw::laws::text_between(texts, first, n));
    } else {
        assert(crate::word_timestamps::joined_words(words) == Seq::<char>::empty());
    }
}

/// The first token with text begins a word.
proof fn lemma_first_text(texts: Seq<Seq<char>>, i: int)
    requires
        dtw::laws::has_text(texts, i),
    ensures
        exists|j: int| 0 <= j <= i && #[trigger] dtw::laws::begins_word(texts, j),
    decreases i,
{
    if exists|j: int| 0 <= j < i && #[trigger] dtw::laws::has_text(texts, j) {
        let j = choose|j: int| 0 <= j < i && #[trigger] dtw::laws::has_text(texts, j);
        lemma_first_text(texts, j);
    } else {
        assert(dtw::laws::begins_word(texts, i));
    }
}

/// A transcript reports its decode: the decoder was asked with the caller's options, and language,
/// probability of silence and text are those of what it gave.
pub proof fn law_transcription_reports_its_decode<
    'a,
    T: Add<Output = T> + Sub<Output = T> + Mul<Output = T> + Div<Output = T>,
    X,
    B: Fn(u32) -> T,
    N: Fn(usize) -> T,
    K: Fn(T) -> T,
    F: Fn(Vec<T>) -> Vec<(T, T)>,
    M: Fn(T, T) -> T,
    L: Fn(T) -> T,
    C: Fn(Vec<T>, usize, usize) -> Result<X, String>,
    D: Fn(X, TranscribeOptions<'a>) -> Result<AlignedDecode<T>, String>,
    A: Fn(Vec<T>, usize, usize, usize, usize) -> Vec<(T, T)>,
>(
    sound: Sound<'_, T>,
    math: MelMath<T, B, N, K, F, M, L>,
    opts: TranscribeOptions<'a>,
    vocab: Seq<Seq<char>>,
    stages: Stages<C, D>,
    align: A,
    t: WordTimedTranscript<T>,
)
    requires
        crate::word_timestamps::is_word_transcription(
            sound,
            math,
            opts,
            80,
            vocab,
            stages,
            align,
            t,
        ),
        math.ready(),
    ensures
        exists|x: X, o: TranscribeOptions<'a>, dec: Result<AlignedDecode<T>, String>|
            #![trigger call_ensures(stages.decode, (x, o), dec)]
            {
                &&& call_ensures(stages.decode, (x, o), dec)
                &&& dec is Ok
                &&& o.word_timestamps
                &&& o.language == opts.language
                &&& o.beam_width == opts.beam_width
                &&& o.temperature == opts.temperature
                &&& o.top_k == opts.top_k
                &&& o.top_p == opts.top_p
                &&& o.timestamps == opts.timestamps
                &&& o.initial_prompt == opts.initial_prompt
                &&& o.suppress_tokens == opts.suppress_tokens
                &&& o.no_repeat_ngram_size == opts.no_repeat_ngram_size
                &&& o.previous_tokens == opts.previous_tokens
                &&& crate::decoder::text_view(t.language) == crate::decoder::text_view(
                    dec->Ok_0.detected_language,
                )
                &&& t.no_speech_prob == dec->Ok_0.no_speech_prob
                &&& dec->Ok_0.cross_attention is None || dec->Ok_0.tokens@.len() == 0 ==> t.text@
                    == crate::tokenizer::decoded(dec->Ok_0.tokens@, vocab) && t.words@.len() == 0
                &&& dec->Ok_0.cross_attention is Some && dec->Ok_0.tokens@.len() > 0 ==> t.text@
                    == dtw::laws::text_between(
                    Seq::new(
                        dec->Ok_0.tokens@.len(),
                        |i: int|
                            crate::tokenizer::decoded(seq![dec->Ok_0.tokens@[i]], vocab),
                    ),
                    0,
                    dec->Ok_0.tokens@.len() as int,
                )
            },
{
    let n_mels: usize = 80;
    let a = choose|a: AlignedDecode<T>| #[trigger]
        crate::word_timestamps::staged(
            sound,
            math,
            stages,
            opts,
            n_mels,
            Ok::<AlignedDecode<T>, OxiWhisperError>(a),
        ) && crate::word_timestamps::is_transcript(
            align,
            math.zero,
            math.count,
            a,
            vocab,
            t.text@,
            t.words@,
        ) && crate::decoder::text_view(t.language) == crate::decoder::text_view(
            a.detected_language,
        ) && t.no_speech_prob == a.no_speech_prob;
    let result = Ok::<AlignedDecode<T>, OxiWhisperError>(a);
    law_transcript_keeps_text(align, math.zero, math.count, a, vocab, t.text@, t.words@);
    let (m, enc) = choose|m: Vec<T>, enc: Result<X, String>|
        crate::mel::is_spectrogram(sound.audio@, sound.mel_filters@, math, m@)
            && #[trigger] call_ensures(
            stages.encode,
            (m, n_mels, (m@.len() / n_mels as nat) as usize),
            enc,
        ) && crate::word_timestamps::is_decode_of(stages.decode, opts, enc, result);
    let o = TranscribeOptions { word_timestamps: true, ..opts };
    let dec = choose|dec: Result<AlignedDecode<T>, String>| #[trigger]
        call_ensures(stages.decode, (enc->Ok_0, o), dec) && match dec {
            Ok(d) => result matches Ok(r) && r == d,
            Err(e) => result matches Err(OxiWhisperError::InferenceFailed(x)) && x == e,
        };
    assert(call_ensures(stages.decode, (enc->Ok_0, o), dec));
    assert(dec->Ok_0 == a);
}

} // verus!
