//! Word-level timestamp alignment from cross-attention weights.

pub mod laws;

use core::ops::{Add, Div};
use vstd::prelude::*;
use vstd::string::*;

verus! {

/// A word with start and end times and a confidence score.
#[derive(Debug, Clone, PartialEq)]
pub struct WordSegment<T> {
    /// The word text.
    pub word: String,
    /// Start time.
    pub start: T,
    /// End time.
    pub end: T,
    /// Confidence score (average over the word's tokens).
    pub confidence: T,
}

/// The frame that token `t` attends to most: the last one of the largest weights in its row.
pub open spec fn peak(weights: Seq<u32>, n_frames: int, t: int) -> int {
    crate::bits::leader(weights.subrange(t * n_frames, t * n_frames + n_frames))
}

/// The furthest peak of the tokens up to and including `t`.
pub open spec fn furthest(weights: Seq<u32>, n_frames: int, t: int) -> int
    decreases t,
{
    let own = peak(weights, n_frames, t);
    if t <= 0 {
        own
    } else {
        let earlier = furthest(weights, n_frames, t - 1);
        if own < earlier {
            earlier
        } else {
            own
        }
    }
}

/// The frames that token `t` spans: from its furthest peak to that of the next token, the last
/// token for one frame.
pub open spec fn span(weights: Seq<u32>, n_tokens: int, n_frames: int, t: int) -> (int, int) {
    let start = furthest(weights, n_frames, t);
    if t + 1 < n_tokens {
        (start, furthest(weights, n_frames, t + 1))
    } else if start + 1 < n_frames {
        (start, start + 1)
    } else {
        (start, n_frames)
    }
}

/// The peak of a row is one of its frames.
proof fn lemma_peak(weights: Seq<u32>, n_tokens: int, n_frames: int, t: int)
    requires
        0 <= t < n_tokens,
        0 < n_frames,
        n_tokens * n_frames <= weights.len(),
    ensures
        0 <= t * n_frames,
        t * n_frames + n_frames <= weights.len(),
        0 <= peak(weights, n_frames, t) < n_frames,
{
    assert(0 <= t * n_frames && t * n_frames + n_frames <= n_tokens * n_frames)
        by (nonlinear_arith)
        requires
            0 <= t < n_tokens,
            0 < n_frames,
    ;
    lemma_leader(weights.subrange(t * n_frames, t * n_frames + n_frames));
}

/// The leader of a sequence is one of its places.
proof fn lemma_leader(s: Seq<u32>)
    requires
        s.len() > 0,
    ensures
        0 <= crate::bits::leader(s) < s.len(),
    decreases s.len(),
{
    if s.len() > 1 {
        lemma_leader(s.drop_last());
    }
}

/// The furthest peak is a frame, and never lies before that of the previous token.
proof fn lemma_furthest(weights: Seq<u32>, n_tokens: int, n_frames: int, t: int)
    requires
        0 <= t < n_tokens,
        0 < n_frames,
        n_tokens * n_frames <= weights.len(),
    ensures
        0 <= furthest(weights, n_frames, t) < n_frames,
        t > 0 ==> furthest(weights, n_frames, t - 1) <= furthest(weights, n_frames, t),
    decreases t,
{
    lemma_peak(weights, n_tokens, n_frames, t);
    if t > 0 {
        lemma_furthest(weights, n_tokens, n_frames, t - 1);
    }
}

/// The spans of tokens, counted in audio samples. `attention_weights` are bit patterns.
pub fn align_samples(
    attention_weights: &[u32],
    n_tokens: usize,
    n_frames: usize,
    hop_length: usize,
) -> (r: Vec<(usize, usize)>)
    requires
        n_tokens * n_frames <= attention_weights@.len(),
        n_frames * hop_length <= usize::MAX,
    ensures
        if n_tokens == 0 || n_frames == 0 {
            r@.len() == 0
        } else {
            &&& r@.len() == n_tokens
            &&& forall|t: int|
                0 <= t < n_tokens ==> {
                    let frames = span(attention_weights@, n_tokens as int, n_frames as int, t);
                    (#[trigger] r@[t]).0 == frames.0 * hop_length && r@[t].1 == frames.1
                        * hop_length
                }
        },
{
    let mut r: Vec<(usize, usize)> = Vec::new();
    if n_tokens == 0 || n_frames == 0 {
        return r;
    }
    let ghost w = attention_weights@;
    let mut frames: Vec<usize> = Vec::with_capacity(n_tokens);
    let mut t: usize = 0;
    while t < n_tokens
        invariant
            t <= n_tokens,
            n_frames > 0,
            w == attention_weights@,
            n_tokens * n_frames <= w.len(),
            frames@.len() == t,
            forall|j: int| 0 <= j < t ==> #[trigger] frames@[j] == furthest(w, n_frames as int, j),
        decreases n_tokens - t,
    {
        let len: usize = attention_weights.len();
        proof {
            lemma_peak(w, n_tokens as int, n_frames as int, t as int);
            lemma_furthest(w, n_tokens as int, n_frames as int, t as int);
        }
        let base: usize = t * n_frames;
        let own: usize = crate::bits::find_leader(&attention_weights[base..base + n_frames]);
        let frame: usize = if t > 0 && own < frames[t - 1] {
            frames[t - 1]
        } else {
            own
        };
        frames.push(frame);
        t = t + 1;
    }
    let mut i: usize = 0;
    while i < n_tokens
        invariant
            i <= n_tokens,
            n_frames > 0,
            w == attention_weights@,
            n_tokens * n_frames <= w.len(),
            n_frames * hop_length <= usize::MAX,
            frames@.len() == n_tokens,
            forall|j: int|
                0 <= j < n_tokens ==> #[trigger] frames@[j] == furthest(w, n_frames as int, j),
            r@.len() == i,
            forall|j: int|
                0 <= j < i ==> {
                    let f = span(w, n_tokens as int, n_frames as int, j);
                    (#[trigger] r@[j]).0 == f.0 * hop_length && r@[j].1 == f.1 * hop_length
                },
        decreases n_tokens - i,
    {
        proof {
            lemma_furthest(w, n_tokens as int, n_frames as int, i as int);
            if i + 1 < n_tokens {
                lemma_furthest(w, n_tokens as int, n_frames as int, i + 1);
            }
        }
        let start: usize = frames[i];
        let end: usize = if i + 1 < n_tokens {
            frames[i + 1]
        } else {
            start + 1
        };
        proof {
            assert(0 <= start * hop_length <= n_frames * hop_length && 0 <= end * hop_length
                <= n_frames * hop_length) by (nonlinear_arith)
                requires
                    0 <= start <= n_frames,
                    0 <= end <= n_frames,
                    hop_length >= 0,
            ;
        }
        r.push((start * hop_length, end * hop_length));
        i = i + 1;
    }
    r
}

/// `r` is a number of samples in seconds.
pub open spec fn is_time<T: Div<Output = T>, N: Fn(usize) -> T>(
    count: N,
    sample_rate: usize,
    samples: usize,
    r: T,
) -> bool {
    exists|n: T, d: T| #[trigger]
        call_ensures(count, (samples,), n) && #[trigger] call_ensures(count, (sample_rate,), d)
            && crate::num::is_quotient(n, d, r)
}

/// `times` are the start and end of a span, counted in samples; the end is not below the start.
pub open spec fn are_span_times<T: Div<Output = T>, N: Fn(usize) -> T, M: Fn(T, T) -> T>(
    count: N,
    larger: M,
    sample_rate: usize,
    samples: (usize, usize),
    times: (T, T),
) -> bool {
    &&& is_time(count, sample_rate, samples.0, times.0)
    &&& exists|e: T| #[trigger]
        is_time(count, sample_rate, samples.1, e) && call_ensures(larger, (e, times.0), times.1)
}

/// The span of token `t`, counted in samples.
pub open spec fn sample_span(
    weights: Seq<u32>,
    n_tokens: usize,
    n_frames: usize,
    hop_length: usize,
    t: int,
) -> (usize, usize) {
    let frames = span(weights, n_tokens as int, n_frames as int, t);
    ((frames.0 * hop_length) as usize, (frames.1 * hop_length) as usize)
}

/// `r` holds the start and end times of tokens by attention weights.
pub open spec fn is_alignment<
    T: Div<Output = T>,
    B: Fn(T) -> u32,
    N: Fn(usize) -> T,
    M: Fn(T, T) -> T,
>(
    weights: Seq<T>,
    n_tokens: usize,
    n_frames: usize,
    hop_length: usize,
    sample_rate: usize,
    to_bits: B,
    count: N,
    larger: M,
    r: Seq<(T, T)>,
) -> bool {
    if n_tokens == 0 || n_frames == 0 {
        r.len() == 0
    } else {
        &&& r.len() == n_tokens
        &&& exists|bits: Seq<u32>| #[trigger]
            crate::bits::are_bits(to_bits, weights, bits) && forall|t: int|
                0 <= t < n_tokens ==> are_span_times(
                    count,
                    larger,
                    sample_rate,
                    sample_span(bits, n_tokens, n_frames, hop_length, t),
                    #[trigger] r[t],
                )
    }
}

/// Compute the alignment between token attention weights and audio frames.
///
/// - `attention_weights`: matrix of shape \[n_tokens, n_frames\]
///   (each row shows which audio frames a token attends to)
/// - `n_tokens`: number of tokens (rows)
/// - `n_frames`: number of audio frames (columns)
/// - `hop_length`: audio hop length in samples (160 for Whisper)
/// - `sample_rate`: audio sample rate (16000 for Whisper)
///
/// Returns per-token (start, end) pairs in seconds.
pub fn align_tokens_dtw<
    T: Copy + Div<Output = T>,
    B: Fn(T) -> u32,
    N: Fn(usize) -> T,
    M: Fn(T, T) -> T,
>(
    attention_weights: &[T],
    n_tokens: usize,
    n_frames: usize,
    hop_length: usize,
    sample_rate: usize,
    to_bits: &B,
    count: &N,
    larger: &M,
) -> (r: Vec<(T, T)>)
    requires
        n_tokens * n_frames <= attention_weights@.len(),
        n_frames * hop_length <= usize::MAX,
        forall|a: T| #[trigger] call_requires(*to_bits, (a,)),
        forall|n: usize| #[trigger] call_requires(*count, (n,)),
        forall|a: T, b: T| #[trigger] call_requires(*larger, (a, b)),
        crate::num::total_div::<T>(),
    ensures
        if n_tokens == 0 || n_frames == 0 {
            r@.len() == 0
        } else {
            &&& r@.len() == n_tokens
            &&& exists|bits: Seq<u32>| #[trigger]
                crate::bits::are_bits(*to_bits, attention_weights@, bits) && forall|t: int|
                    0 <= t < n_tokens ==> are_span_times(
                        *count,
                        *larger,
                        sample_rate,
                        sample_span(bits, n_tokens, n_frames, hop_length, t),
                        #[trigger] r@[t],
                    )
        },
        is_alignment(
            attention_weights@,
            n_tokens,
            n_frames,
            hop_length,
            sample_rate,
            *to_bits,
            *count,
            *larger,
            r@,
        ),
{
    let bits: Vec<u32> = crate::bits::bits_of(to_bits, attention_weights);
    let spans: Vec<(usize, usize)> = align_samples(
        bits.as_slice(),
        n_tokens,
        n_frames,
        hop_length,
    );
    let mut r: Vec<(T, T)> = Vec::with_capacity(spans.len());
    let mut i: usize = 0;
    while i < spans.len()
        invariant
            i <= spans@.len(),
            forall|n: usize| #[trigger] call_requires(*count, (n,)),
            forall|a: T, b: T| #[trigger] call_requires(*larger, (a, b)),
            crate::num::total_div::<T>(),
            r@.len() == i,
            forall|t: int|
                0 <= t < i ==> are_span_times(
                    *count,
                    *larger,
                    sample_rate,
                    spans@[t],
                    #[trigger] r@[t],
                ),
        decreases spans@.len() - i,
    {
        let (from, to) = spans[i];
        let start: T = time_of(count, sample_rate, from);
        let end: T = time_of(count, sample_rate, to);
        let last: T = larger(end, start);
        assert(is_time(*count, sample_rate, to, end) && call_ensures(*larger, (end, start), last));
        r.push((start, last));
        i = i + 1;
    }
    proof {
        if n_tokens > 0 && n_frames > 0 {
            assert forall|t: int| 0 <= t < n_tokens implies are_span_times(
                *count,
                *larger,
                sample_rate,
                sample_span(bits@, n_tokens, n_frames, hop_length, t),
                #[trigger] r@[t],
            ) by {
                assert(spans@[t] == sample_span(bits@, n_tokens, n_frames, hop_length, t));
            }
        }
    }
    r
}

/// A number of samples in seconds.
fn time_of<T: Copy + Div<Output = T>, N: Fn(usize) -> T>(
    count: &N,
    sample_rate: usize,
    samples: usize,
) -> (r: T)
    requires
        forall|n: usize| #[trigger] call_requires(*count, (n,)),
        crate::num::total_div::<T>(),
    ensures
        is_time(*count, sample_rate, samples, r),
{
    let n: T = count(samples);
    let d: T = count(sample_rate);
    let r: T = n / d;
    assert(call_ensures(*count, (samples,), n) && call_ensures(*count, (sample_rate,), d));
    r
}

/// Spans lie in order: each starts where the one before it ends, none ends before it starts, and
/// all are within the frames.
pub proof fn law_spans_are_monotone(weights: Seq<u32>, n_tokens: int, n_frames: int, t: int)
    requires
        0 <= t < n_tokens,
        0 < n_frames,
        n_tokens * n_frames <= weights.len(),
    ensures
        0 <= span(weights, n_tokens, n_frames, t).0 <= span(weights, n_tokens, n_frames, t).1
            <= n_frames,
        t + 1 < n_tokens ==> span(weights, n_tokens, n_frames, t).1 == span(
            weights,
            n_tokens,
            n_frames,
            t + 1,
        ).0,
{
    lemma_furthest(weights, n_tokens, n_frames, t);
    if t + 1 < n_tokens {
        lemma_furthest(weights, n_tokens, n_frames, t + 1);
    }
}

/// Whether a token's text is more than white space.
pub open spec fn is_visible(text: Seq<char>) -> bool {
    crate::text::trimmed(text).len() > 0
}

/// The places of the tokens with visible text.
pub open spec fn visible(texts: Seq<Seq<char>>) -> Seq<int>
    decreases texts.len(),
{
    if texts.len() == 0 {
        Seq::empty()
    } else if is_visible(texts.last()) {
        visible(texts.drop_last()).push(texts.len() - 1)
    } else {
        visible(texts.drop_last())
    }
}

/// The first visible token at or behind number `m` that begins a word: its text begins with a
/// space.
pub open spec fn next_word(texts: Seq<Seq<char>>, places: Seq<int>, m: int) -> int
    decreases places.len() - m,
{
    if m >= places.len() {
        places.len() as int
    } else if crate::text::begins_with_space(texts[places[m]]) {
        m
    } else {
        next_word(texts, places, m + 1)
    }
}

/// The trimmed texts of the tokens at `places`, one behind the other.
pub open spec fn joined(texts: Seq<Seq<char>>, places: Seq<int>) -> Seq<char>
    decreases places.len(),
{
    if places.len() == 0 {
        Seq::empty()
    } else {
        joined(texts, places.drop_last()) + crate::text::trimmed(texts[places.last()])
    }
}

/// The probabilities of the tokens at `places`, as far as they are known.
pub open spec fn known_probs<T>(probs: Seq<T>, places: Seq<int>) -> Seq<T>
    decreases places.len(),
{
    if places.len() == 0 {
        Seq::empty()
    } else if places.last() < probs.len() {
        known_probs(probs, places.drop_last()).push(probs[places.last()])
    } else {
        known_probs(probs, places.drop_last())
    }
}

/// A word: its text, its times and the probabilities of its tokens.
#[verifier::ext_equal]
pub struct Word<T> {
    /// Text.
    pub text: Seq<char>,
    /// Start time.
    pub start: T,
    /// End time.
    pub end: T,
    /// Probabilities.
    pub probs: Seq<T>,
}

/// The word that the visible tokens from number `a` up to `b` make. It starts with its first
/// token; it ends where the next word starts, the last word with the last token. A start that is
/// not known is `zero`, an end that is not known is the start.
pub open spec fn word_of<T>(
    texts: Seq<Seq<char>>,
    times: Seq<(T, T)>,
    probs: Seq<T>,
    zero: T,
    places: Seq<int>,
    a: int,
    b: int,
) -> Word<T> {
    let start = if places[a] < times.len() {
        times[places[a]].0
    } else {
        zero
    };
    let end = if b < places.len() {
        if places[b] < times.len() {
            times[places[b]].0
        } else {
            start
        }
    } else if times.len() > 0 {
        times.last().1
    } else {
        start
    };
    Word {
        text: crate::text::trimmed(joined(texts, places.subrange(a, b))),
        start,
        end,
        probs: known_probs(probs, places.subrange(a, b)),
    }
}

/// The words of the visible tokens from number `m` on. A token that begins with a space begins a
/// word, and so does the first one.
pub open spec fn words_of<T>(
    texts: Seq<Seq<char>>,
    times: Seq<(T, T)>,
    probs: Seq<T>,
    zero: T,
    places: Seq<int>,
    m: int,
) -> Seq<Word<T>>
    decreases places.len() - m,
{
    if m >= places.len() {
        Seq::empty()
    } else {
        let e = next_word(texts, places, m + 1);
        proof {
            lemma_next_word(texts, places, m + 1);
        }
        seq![word_of(texts, times, probs, zero, places, m, e)] + words_of(
            texts,
            times,
            probs,
            zero,
            places,
            e,
        )
    }
}

/// The next word lies at or behind where it is looked for.
pub proof fn lemma_next_word(texts: Seq<Seq<char>>, places: Seq<int>, m: int)
    requires
        m <= places.len(),
    ensures
        m <= next_word(texts, places, m) <= places.len(),
    decreases places.len() - m,
{
    if m < places.len() && !crate::text::begins_with_space(texts[places[m]]) {
        lemma_next_word(texts, places, m + 1);
    }
}

/// `c` is the confidence of a word: the mean of its probabilities, `zero` if there is none.
pub open spec fn is_confidence<T: Add<Output = T> + Div<Output = T>, N: Fn(usize) -> T>(
    zero: T,
    count: N,
    probs: Seq<T>,
    c: T,
) -> bool {
    if probs.len() == 0 {
        c == zero
    } else {
        exists|s: T, n: T| #[trigger]
            crate::num::is_quotient(s, n, c) && crate::num::sum_of(zero, probs, s) && probs.len()
                <= usize::MAX && call_ensures(count, (probs.len() as usize,), n)
    }
}

/// The segment `s` stands for the word `w`.
pub open spec fn stands_for<T: Add<Output = T> + Div<Output = T>, N: Fn(usize) -> T>(
    zero: T,
    count: N,
    s: WordSegment<T>,
    w: Word<T>,
) -> bool {
    &&& s.word@ == w.text
    &&& s.start == w.start
    &&& s.end == w.end
    &&& is_confidence(zero, count, w.probs, s.confidence)
}

/// The texts of strings.
pub open spec fn string_views(s: Seq<String>) -> Seq<Seq<char>> {
    s.map_values(|x: String| x@)
}

/// `segments` stand for the words of the tokens.
pub open spec fn are_words<T: Add<Output = T> + Div<Output = T>, N: Fn(usize) -> T>(
    texts: Seq<Seq<char>>,
    times: Seq<(T, T)>,
    probs: Seq<T>,
    zero: T,
    count: N,
    segments: Seq<WordSegment<T>>,
) -> bool {
    let words = words_of(texts, times, probs, zero, visible(texts), 0);
    &&& segments.len() == words.len()
    &&& forall|i: int|
        0 <= i < segments.len() ==> stands_for(zero, count, #[trigger] segments[i], words[i])
}

/// The places of visible tokens are places of tokens, in order.
proof fn lemma_visible(texts: Seq<Seq<char>>)
    ensures
        forall|i: int|
            0 <= i < visible(texts).len() ==> 0 <= #[trigger] visible(texts)[i] < texts.len()
                && is_visible(texts[visible(texts)[i]]),
        forall|i: int, j: int|
            0 <= i < j < visible(texts).len() ==> #[trigger] visible(texts)[i]
                < #[trigger] visible(texts)[j],
    decreases texts.len(),
{
    if texts.len() > 0 {
        lemma_visible(texts.drop_last());
        assert forall|i: int| 0 <= i < visible(texts).len() implies 0 <= #[trigger] visible(
            texts,
        )[i] < texts.len() && is_visible(texts[visible(texts)[i]]) by {
            if i < visible(texts.drop_last()).len() {
                let p = visible(texts.drop_last())[i];
                assert(0 <= p < texts.drop_last().len());
                assert(texts.drop_last()[p] == texts[p]);
            }
        }
    }
}

/// Executable form of [`visible`].
fn find_visible(token_texts: &[String]) -> (r: Vec<usize>)
    ensures
        r@.map_values(|p: usize| p as int) == visible(string_views(token_texts@)),
{
    let ghost texts = string_views(token_texts@);
    let mut r: Vec<usize> = Vec::new();
    let mut i: usize = 0;
    assert(r@.map_values(|p: usize| p as int) =~= visible(texts.take(0)));
    while i < token_texts.len()
        invariant
            i <= token_texts@.len(),
            texts == string_views(token_texts@),
            r@.map_values(|p: usize| p as int) == visible(texts.take(i as int)),
        decreases token_texts@.len() - i,
    {
        let ghost before = r@.map_values(|p: usize| p as int);
        assert(texts.take(i + 1).drop_last() =~= texts.take(i as int));
        assert(texts.take(i + 1).last() == token_texts@[i as int]@);
        if token_texts[i].as_str().trim().unicode_len() > 0 {
            r.push(i);
            assert(r@.map_values(|p: usize| p as int) =~= before.push(i as int));
        }
        i = i + 1;
    }
    assert(texts.take(i as int) =~= texts);
    r
}

/// The mean of the probabilities of a word.
fn confidence_of<T: Copy + Add<Output = T> + Div<Output = T>, N: Fn(usize) -> T>(
    zero: T,
    count: &N,
    probs: &Vec<T>,
) -> (c: T)
    requires
        forall|n: usize| #[trigger] call_requires(*count, (n,)),
        crate::num::total_add::<T>(),
        crate::num::total_div::<T>(),
    ensures
        is_confidence(zero, *count, probs@, c),
{
    if probs.len() == 0 {
        return zero;
    }
    let s: T = crate::num::sum(probs.as_slice(), zero);
    let n: T = count(probs.len());
    let c: T = s / n;
    assert(crate::num::is_quotient(s, n, c));
    c
}

/// The word that the visible tokens from number `a` up to `b` make.
fn make_word<T: Copy + Add<Output = T> + Div<Output = T>, N: Fn(usize) -> T>(
    token_texts: &[String],
    token_times: &[(T, T)],
    token_probs: &[T],
    zero: T,
    count: &N,
    places: &Vec<usize>,
    a: usize,
    b: usize,
) -> (s: WordSegment<T>)
    requires
        a < b <= places@.len(),
        forall|i: int| 0 <= i < places@.len() ==> #[trigger] places@[i] < token_texts@.len(),
        forall|n: usize| #[trigger] call_requires(*count, (n,)),
        crate::num::total_add::<T>(),
        crate::num::total_div::<T>(),
    ensures
        stands_for(
            zero,
            *count,
            s,
            word_of(
                string_views(token_texts@),
                token_times@,
                token_probs@,
                zero,
                places@.map_values(|p: usize| p as int),
                a as int,
                b as int,
            ),
        ),
{
    let ghost texts = string_views(token_texts@);
    let ghost all = places@.map_values(|p: usize| p as int);
    let ghost own = all.subrange(a as int, b as int);
    let mut word: String = "".to_string();
    let mut probs: Vec<T> = Vec::new();
    proof {
        reveal_strlit("");
        assert(word@ =~= joined(texts, own.take(0)));
        assert(probs@ =~= known_probs(token_probs@, own.take(0)));
    }
    let mut m: usize = a;
    while m < b
        invariant
            a <= m <= b <= places@.len(),
            forall|i: int| 0 <= i < places@.len() ==> #[trigger] places@[i] < token_texts@.len(),
            texts == string_views(token_texts@),
            all == places@.map_values(|p: usize| p as int),
            own == all.subrange(a as int, b as int),
            word@ == joined(texts, own.take(m - a)),
            probs@ == known_probs(token_probs@, own.take(m - a)),
        decreases b - m,
    {
        let place: usize = places[m];
        proof {
            assert(own.take(m - a + 1).drop_last() =~= own.take(m - a));
            assert(own.take(m - a + 1).last() == place as int);
            assert(texts[place as int] == token_texts@[place as int]@);
        }
        word.append(token_texts[place].as_str().trim());
        if place < token_probs.len() {
            probs.push(token_probs[place]);
        }
        m = m + 1;
    }
    assert(own.take(b - a) =~= own);
    let start: T = if places[a] < token_times.len() {
        token_times[places[a]].0
    } else {
        zero
    };
    let end: T = if b < places.len() {
        if places[b] < token_times.len() {
            token_times[places[b]].0
        } else {
            start
        }
    } else if token_times.len() > 0 {
        token_times[token_times.len() - 1].1
    } else {
        start
    };
    let confidence: T = confidence_of(zero, count, &probs);
    WordSegment { word: word.as_str().trim().to_string(), start, end, confidence }
}

/// Build word segments by grouping tokens into words.
///
/// `token_texts`: decoded text for each token
/// `token_times`: (start, end) time for each token
/// `token_probs`: log-probability for each token
pub fn build_word_segments<T: Copy + Add<Output = T> + Div<Output = T>, N: Fn(usize) -> T>(
    token_texts: &[String],
    token_times: &[(T, T)],
    token_probs: &[T],
    zero: T,
    count: &N,
) -> (segments: Vec<WordSegment<T>>)
    requires
        forall|n: usize| #[trigger] call_requires(*count, (n,)),
        crate::num::total_add::<T>(),
        crate::num::total_div::<T>(),
    ensures
        are_words(
            string_views(token_texts@),
            token_times@,
            token_probs@,
            zero,
            *count,
            segments@,
        ),
{
    let ghost texts = string_views(token_texts@);
    let places: Vec<usize> = find_visible(token_texts);
    let ghost all = places@.map_values(|p: usize| p as int);
    let ghost words = words_of(texts, token_times@, token_probs@, zero, all, 0);
    proof {
        lemma_visible(texts);
        assert forall|i: int| 0 <= i < places@.len() implies #[trigger] places@[i]
            < token_texts@.len() by {
            assert(all[i] == places@[i]);
        }
    }
    let mut segments: Vec<WordSegment<T>> = Vec::new();
    let mut begin: usize = 0;
    while begin < places.len()
        invariant
            begin <= places@.len(),
            texts == string_views(token_texts@),
            all == places@.map_values(|p: usize| p as int),
            words == words_of(texts, token_times@, token_probs@, zero, all, 0),
            forall|i: int| 0 <= i < places@.len() ==> #[trigger] places@[i] < token_texts@.len(),
            forall|n: usize| #[trigger] call_requires(*count, (n,)),
            crate::num::total_add::<T>(),
            crate::num::total_div::<T>(),
            segments@.len() <= words.len(),
            words.skip(segments@.len() as int) == words_of(
                texts,
                token_times@,
                token_probs@,
                zero,
                all,
                begin as int,
            ),
            forall|i: int|
                0 <= i < segments@.len() ==> stands_for(
                    zero,
                    *count,
                    #[trigger] segments@[i],
                    words[i],
                ),
        decreases places@.len() - begin,
    {
        let mut end: usize = begin + 1;
        while end < places.len() && !crate::text::starts_with_space(
            token_texts[places[end]].as_str(),
        )
            invariant
                begin < end <= places@.len(),
                texts == string_views(token_texts@),
                all == places@.map_values(|p: usize| p as int),
                forall|i: int|
                    0 <= i < places@.len() ==> #[trigger] places@[i] < token_texts@.len(),
                next_word(texts, all, begin + 1) == next_word(texts, all, end as int),
            decreases places@.len() - end,
        {
            assert(all[end as int] == places@[end as int]);
            assert(texts[places@[end as int] as int] == token_texts@[places@[end as int] as int]@);
            end = end + 1;
        }
        proof {
            if end < places@.len() {
                assert(all[end as int] == places@[end as int]);
                assert(texts[places@[end as int] as int]
                    == token_texts@[places@[end as int] as int]@);
            }
            assert(next_word(texts, all, begin + 1) == end);
            let rest = words_of(texts, token_times@, token_probs@, zero, all, begin as int);
            let first = word_of(
                texts,
                token_times@,
                token_probs@,
                zero,
                all,
                begin as int,
                end as int,
            );
            assert(rest[0] == first);
            let tail = words.skip(segments@.len() as int);
            assert(tail == rest && rest.len() > 0);
            assert(words[segments@.len() as int] == tail[0]);
            assert(rest.skip(1) =~= words_of(
                texts,
                token_times@,
                token_probs@,
                zero,
                all,
                end as int,
            ));
            assert(words.skip(segments@.len() as int + 1) =~= rest.skip(1));
        }
        segments.push(
            make_word(
                token_texts,
                token_times,
                token_probs,
                zero,
                count,
                &places,
                begin,
                end,
            ),
        );
        begin = end;
    }
    segments
}

/// Words lie in order where the times of the tokens do: no word starts before an earlier one, and
/// none ends before it starts. `le` is the order of times; every token has its times, none starts
/// before an earlier one, and the last one ends behind all starts.
pub proof fn law_words_are_ordered<T>(
    texts: Seq<Seq<char>>,
    times: Seq<(T, T)>,
    probs: Seq<T>,
    zero: T,
    le: spec_fn(T, T) -> bool,
    m: int,
)
    requires
        forall|a: T| #[trigger] le(a, a),
        forall|a: T, b: T, c: T| #[trigger] le(a, b) && #[trigger] le(b, c) ==> le(a, c),
        times.len() == texts.len(),
        forall|i: int, j: int|
            0 <= i <= j < times.len() ==> le((#[trigger] times[i]).0, (#[trigger] times[j]).0),
        forall|i: int| 0 <= i < times.len() ==> le((#[trigger] times[i]).0, times.last().1),
        0 <= m,
    ensures
        ({
            let words = words_of(texts, times, probs, zero, visible(texts), m);
            &&& forall|k: int|
                0 <= k < words.len() ==> le((#[trigger] words[k]).start, words[k].end)
            &&& forall|j: int, k: int|
                0 <= j <= k < words.len() ==> le(
                    (#[trigger] words[j]).start,
                    (#[trigger] words[k]).start,
                )
            &&& forall|k: int|
                0 <= k < words.len() ==> le(
                    times[visible(texts)[m]].0,
                    (#[trigger] words[k]).start,
                )
        }),
    decreases visible(texts).len() - m,
{
    let places = visible(texts);
    if m < places.len() {
        let e = next_word(texts, places, m + 1);
        lemma_next_word(texts, places, m + 1);
        law_words_are_ordered(texts, times, probs, zero, le, e);
        lemma_visible(texts);
        let first = word_of(texts, times, probs, zero, places, m, e);
        let rest = words_of(texts, times, probs, zero, places, e);
        let words = seq![first] + rest;
        assert(words == words_of(texts, times, probs, zero, places, m));
        assert(first.start == times[places[m]].0);
        assert(le(first.start, first.end));
        assert forall|k: int| 0 <= k < rest.len() implies le(
            first.start,
            (#[trigger] rest[k]).start,
        ) by {
            assert(e < places.len());
            assert(places[m] < places[e]);
            assert(le(times[places[m]].0, times[places[e]].0));
        }
        assert forall|k: int| 0 <= k < words.len() implies le(
            first.start,
            (#[trigger] words[k]).start,
        ) by {
            if k > 0 {
                assert(words[k] == rest[k - 1]);
            }
        }
        assert forall|j: int, k: int| 0 <= j <= k < words.len() implies le(
            (#[trigger] words[j]).start,
            (#[trigger] words[k]).start,
        ) by {
            if j > 0 {
                assert(words[j] == rest[j - 1] && words[k] == rest[k - 1]);
            }
        }
        assert forall|k: int| 0 <= k < words.len() implies le(
            (#[trigger] words[k]).start,
            words[k].end,
        ) by {
            if k > 0 {
                assert(words[k] == rest[k - 1]);
            }
        }
    }
}

} // verus!
