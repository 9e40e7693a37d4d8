//! Where tokens lie in time, and which words they make.

use crate::dtw::{self, Word, WordSegment};
use crate::exact;
use core::ops::{Add, Div};
use vstd::prelude::*;

verus! {

/// The weight of a token at a frame.
pub open spec fn weight_at(weights: Seq<u32>, n_frames: int, t: int, f: int) -> u32 {
    weights[t * n_frames + f]
}

/// A token starts at the furthest frame that it or a token before it attends to most: one of their
/// rows has its greatest weight there, and the last one of its greatest; and no row of them has its
/// greatest weight at a later frame.
pub proof fn law_tokens_start_at_furthest_peak(
    weights: Seq<u32>,
    n_tokens: int,
    n_frames: int,
    t: int,
)
    requires
        0 <= t < n_tokens,
        0 < n_frames,
        n_tokens * n_frames <= weights.len(),
        forall|i: int| 0 <= i < weights.len() ==> !crate::bits::is_nan(#[trigger] weights[i]),
    ensures
        ({
            let start = dtw::span(weights, n_tokens, n_frames, t).0;
            &&& 0 <= start < n_frames
            &&& exists|u: int| 0 <= u <= t && #[trigger] peaks_at(weights, n_frames, u, start)
            &&& forall|u: int, f: int|
                0 <= u <= t && start < f < n_frames ==> !#[trigger] peaks_at(
                    weights,
                    n_frames,
                    u,
                    f,
                )
        }),
    decreases t,
{
    let start = dtw::furthest(weights, n_frames, t);
    let own = dtw::peak(weights, n_frames, t);
    dtw::lemma_furthest(weights, n_tokens, n_frames, t);
    lemma_peak_is_last_maximum(weights, n_tokens, n_frames, t);
    if t > 0 {
        law_tokens_start_at_furthest_peak(weights, n_tokens, n_frames, t - 1);
    }
    assert forall|u: int, f: int| 0 <= u <= t && start < f < n_frames implies !#[trigger] peaks_at(
        weights,
        n_frames,
        u,
        f,
    ) by {
        if u == t && peaks_at(weights, n_frames, u, f) {
            assert(crate::bits::rank(weight_at(weights, n_frames, t, f)) < crate::bits::rank(
                weight_at(weights, n_frames, t, own),
            ));
        }
    }
}

/// Whether frame `f` is the last one of the greatest weights of token `u`.
pub open spec fn peaks_at(weights: Seq<u32>, n_frames: int, u: int, f: int) -> bool {
    &&& 0 <= f < n_frames
    &&& forall|g: int|
        0 <= g < n_frames ==> crate::bits::rank(#[trigger] weight_at(weights, n_frames, u, g))
            <= crate::bits::rank(weight_at(weights, n_frames, u, f))
    &&& forall|g: int|
        f < g < n_frames ==> crate::bits::rank(#[trigger] weight_at(weights, n_frames, u, g))
            < crate::bits::rank(weight_at(weights, n_frames, u, f))
}

/// The peak of a row is the last of its greatest weights.
proof fn lemma_peak_is_last_maximum(weights: Seq<u32>, n_tokens: int, n_frames: int, t: int)
    requires
        0 <= t < n_tokens,
        0 < n_frames,
        n_tokens * n_frames <= weights.len(),
        forall|i: int| 0 <= i < weights.len() ==> !crate::bits::is_nan(#[trigger] weights[i]),
    ensures
        peaks_at(weights, n_frames, t, dtw::peak(weights, n_frames, t)),
{
    dtw::lemma_peak(weights, n_tokens, n_frames, t);
    let row = weights.subrange(t * n_frames, t * n_frames + n_frames);
    let own = dtw::peak(weights, n_frames, t);
    assert forall|j: int| 0 <= j < row.len() implies !crate::bits::is_nan(#[trigger] row[j]) by {
        assert(row[j] == weights[t * n_frames + j]);
    }
    assert forall|g: int| 0 <= g < n_frames implies crate::bits::rank(
        #[trigger] weight_at(weights, n_frames, t, g),
    ) <= crate::bits::rank(weight_at(weights, n_frames, t, own)) && (g > own ==> crate::bits::rank(
        weight_at(weights, n_frames, t, g),
    ) < crate::bits::rank(weight_at(weights, n_frames, t, own))) by {
        crate::bits::law_leader_is_last_maximum(row, g);
        assert(row[g] == weights[t * n_frames + g]);
        assert(row[own] == weights[t * n_frames + own]);
    }
}

/// The last token spans one frame, as far as there is one.
pub proof fn law_last_token_spans_one_frame(weights: Seq<u32>, n_tokens: int, n_frames: int)
    requires
        0 < n_tokens,
        0 < n_frames,
        n_tokens * n_frames <= weights.len(),
    ensures
        dtw::span(weights, n_tokens, n_frames, n_tokens - 1).1 == dtw::span(
            weights,
            n_tokens,
            n_frames,
            n_tokens - 1,
        ).0 + 1,
{
    dtw::lemma_furthest(weights, n_tokens, n_frames, n_tokens - 1);
}

/// The times of a token are its frames in seconds: times the sample rate they are the samples of the
/// hops before its first frame, and of those before its end.
pub proof fn law_times_are_frames_in_seconds<
    T: Div<Output = T>,
    N: Fn(usize) -> T,
    M: Fn(T, T) -> T,
>(
    count: N,
    larger: M,
    v: spec_fn(T) -> real,
    weights: Seq<u32>,
    n_tokens: usize,
    n_frames: usize,
    hop_length: usize,
    sample_rate: usize,
    t: int,
    times: (T, T),
)
    requires
        exact::divides(v),
        forall|n: usize, x: T| #[trigger]
            call_ensures(count, (n,), x) ==> v(x) == (n as int) as real,
        forall|a: T, b: T, x: T| #[trigger]
            call_ensures(larger, (a, b), x) ==> v(x) == if v(a) >= v(b) {
                v(a)
            } else {
                v(b)
            },
        0 <= t < n_tokens,
        0 < n_frames,
        0 < sample_rate,
        n_tokens * n_frames <= weights.len(),
        n_frames * hop_length <= usize::MAX,
        dtw::are_span_times(
            count,
            larger,
            sample_rate,
            dtw::sample_span(weights, n_tokens, n_frames, hop_length, t),
            times,
        ),
    ensures
        v(times.0) * (sample_rate as int) as real == (dtw::span(
            weights,
            n_tokens as int,
            n_frames as int,
            t,
        ).0 * hop_length) as real,
        v(times.1) * (sample_rate as int) as real == (dtw::span(
            weights,
            n_tokens as int,
            n_frames as int,
            t,
        ).1 * hop_length) as real,
{
    let frames = dtw::span(weights, n_tokens as int, n_frames as int, t);
    let samples = dtw::sample_span(weights, n_tokens, n_frames, hop_length, t);
    dtw::law_spans_are_monotone(weights, n_tokens as int, n_frames as int, t);
    let a = frames.0;
    let b = frames.1;
    assert(0 <= a * hop_length <= b * hop_length <= n_frames * hop_length) by (nonlinear_arith)
        requires
            0 <= a <= b <= n_frames,
            0 <= hop_length,
    ;
    let e = choose|e: T| #[trigger]
        dtw::is_time(count, sample_rate, samples.1, e) && call_ensures(
            larger,
            (e, times.0),
            times.1,
        );
    lemma_time(count, v, sample_rate, samples.0, times.0);
    lemma_time(count, v, sample_rate, samples.1, e);
    let rate = (sample_rate as int) as real;
    let x = v(times.0);
    let y = v(e);
    assert(x * rate <= y * rate);
    assert(x <= y) by (nonlinear_arith)
        requires
            x * rate <= y * rate,
            rate > 0real,
    ;
}

/// A number of samples in seconds.
proof fn lemma_time<T: Div<Output = T>, N: Fn(usize) -> T>(
    count: N,
    v: spec_fn(T) -> real,
    sample_rate: usize,
    samples: usize,
    r: T,
)
    requires
        exact::divides(v),
        forall|n: usize, x: T| #[trigger]
            call_ensures(count, (n,), x) ==> v(x) == (n as int) as real,
        0 < sample_rate,
        dtw::is_time(count, sample_rate, samples, r),
    ensures
        v(r) * (sample_rate as int) as real == (samples as int) as real,
{
    let (n, d) = choose|n: T, d: T| #[trigger]
        call_ensures(count, (samples,), n) && #[trigger] call_ensures(count, (sample_rate,), d)
            && crate::num::is_quotient(n, d, r);
    let a = v(n);
    let b = v(d);
    let c = v(r);
    assert(c * b == a) by (nonlinear_arith)
        requires
            b > 0real,
            c == a / b,
    ;
}

/// The confidence of a word is the mean of its probabilities: their number times the confidence is
/// their sum.
pub proof fn law_confidence_is_mean<T: Add<Output = T> + Div<Output = T>, N: Fn(usize) -> T>(
    zero: T,
    count: N,
    v: spec_fn(T) -> real,
    probs: Seq<T>,
    c: T,
)
    requires
        exact::adds(v),
        exact::divides(v),
        v(zero) == 0real,
        forall|n: usize, x: T| #[trigger]
            call_ensures(count, (n,), x) ==> v(x) == (n as int) as real,
        dtw::is_confidence(zero, count, probs, c),
    ensures
        probs.len() == 0 ==> v(c) == 0real,
        v(c) * probs.len() as real == exact::total(probs.len(), |i: int| v(probs[i])),
{
    if probs.len() > 0 {
        let (s, n) = choose|s: T, n: T| #[trigger]
            crate::num::is_quotient(s, n, c) && crate::num::sum_of(zero, probs, s) && probs.len()
                <= usize::MAX && call_ensures(count, (probs.len() as usize,), n);
        exact::lemma_sum_value(v, zero, probs, s);
        let a = v(s);
        let b = v(n);
        let r = v(c);
        assert(b == probs.len() as real);
        assert(r * b == a) by (nonlinear_arith)
            requires
                b > 0real,
                r == a / b,
        ;
    } else {
        let r = v(c);
        assert(r * 0real == 0real) by (nonlinear_arith);
    }
}

/// The trimmed texts of the tokens from `a` up to `b`, one behind the other.
pub open spec fn text_between(texts: Seq<Seq<char>>, a: int, b: int) -> Seq<char>
    decreases b - a,
{
    if b <= a {
        Seq::empty()
    } else {
        text_between(texts, a, b - 1) + crate::text::trimmed(texts[b - 1])
    }
}

/// The probabilities of the tokens from `a` up to `b` that have one and whose text is more than white
/// space.
pub open spec fn probs_between<T>(
    texts: Seq<Seq<char>>,
    probs: Seq<T>,
    a: int,
    b: int,
) -> Seq<T>
    decreases b - a,
{
    if b <= a {
        Seq::empty()
    } else if crate::text::trimmed(texts[b - 1]).len() > 0 && b - 1 < probs.len() {
        probs_between(texts, probs, a, b - 1).push(probs[b - 1])
    } else {
        probs_between(texts, probs, a, b - 1)
    }
}

/// Whether token `i` has a text that is more than white space.
pub open spec fn has_text(texts: Seq<Seq<char>>, i: int) -> bool {
    0 <= i < texts.len() && crate::text::trimmed(texts[i]).len() > 0
}

/// Whether token `i` begins a word: its text is more than white space, and begins with a space or is
/// the first such text.
pub open spec fn begins_word(texts: Seq<Seq<char>>, i: int) -> bool {
    &&& has_text(texts, i)
    &&& (texts[i].len() > 0 && texts[i][0] == ' ') || forall|j: int|
        0 <= j < i ==> !#[trigger] has_text(texts, j)
}

/// Every token with text is among the visible ones.
proof fn lemma_visible_complete(texts: Seq<Seq<char>>, i: int)
    requires
        has_text(texts, i),
    ensures
        exists|m: int|
            0 <= m < dtw::visible(texts).len() && #[trigger] dtw::visible(texts)[m] == i,
    decreases texts.len(),
{
    let shorter = texts.drop_last();
    if i < shorter.len() {
        assert(shorter[i] == texts[i]);
        lemma_visible_complete(shorter, i);
        let m = choose|m: int|
            0 <= m < dtw::visible(shorter).len() && #[trigger] dtw::visible(shorter)[m] == i;
        assert(dtw::visible(texts)[m] == i);
    } else {
        let m = dtw::visible(texts).len() - 1;
        assert(dtw::visible(texts)[m] == i);
    }
}

/// Where a run of visible tokens ends: at the next visible one, or behind the last token.
spec fn place_or_end(texts: Seq<Seq<char>>, places: Seq<int>, m: int) -> int {
    if m < places.len() {
        places[m]
    } else {
        texts.len() as int
    }
}

/// Between neighbouring visible tokens there is no text.
proof fn lemma_gap(texts: Seq<Seq<char>>, m: int, i: int)
    requires
        0 <= m < dtw::visible(texts).len(),
        dtw::visible(texts)[m] < i < place_or_end(texts, dtw::visible(texts), m + 1),
    ensures
        !has_text(texts, i),
{
    let places = dtw::visible(texts);
    dtw::lemma_visible(texts);
    if has_text(texts, i) {
        lemma_visible_complete(texts, i);
        let k = choose|k: int| 0 <= k < places.len() && #[trigger] places[k] == i;
        if k < m {
            assert(places[k] < places[m]);
        }
        if k > m + 1 {
            assert(places[m + 1] < places[k]);
        }
    }
}

/// Tokens without text add nothing.
pub(crate) proof fn lemma_nothing_between<T>(texts: Seq<Seq<char>>, probs: Seq<T>, a: int, b: int, c: int)
    requires
        a <= b <= c <= texts.len(),
        0 <= b,
        forall|i: int| b <= i < c ==> !#[trigger] has_text(texts, i),
    ensures
        text_between(texts, a, c) == text_between(texts, a, b),
        probs_between(texts, probs, a, c) == probs_between(texts, probs, a, b),
    decreases c - b,
{
    if b < c {
        lemma_nothing_between(texts, probs, a, b, c - 1);
        assert(!has_text(texts, c - 1));
        assert(text_between(texts, a, c) =~= text_between(texts, a, c - 1));
    }
}

/// The texts and probabilities of the visible tokens from number `a` up to `e`.
proof fn lemma_run<T>(texts: Seq<Seq<char>>, probs: Seq<T>, a: int, e: int)
    requires
        0 <= a < e <= dtw::visible(texts).len(),
    ensures
        ({
            let places = dtw::visible(texts);
            let from = places[a];
            let to = place_or_end(texts, places, e);
            &&& dtw::joined(texts, places.subrange(a, e)) == text_between(texts, from, to)
            &&& dtw::known_probs(probs, places.subrange(a, e)) == probs_between(
                texts,
                probs,
                from,
                to,
            )
        }),
    decreases e,
{
    let places = dtw::visible(texts);
    dtw::lemma_visible(texts);
    let from = places[a];
    let last = places[e - 1];
    let own = places.subrange(a, e);
    assert(own.drop_last() =~= places.subrange(a, e - 1));
    assert(own.last() == last);
    let to = place_or_end(texts, places, e);
    assert(last < to) by {
        if e < places.len() {
            assert(places[e - 1] < places[e]);
        }
    }
    assert(to <= texts.len());
    if e - 1 > a {
        lemma_run(texts, probs, a, e - 1);
        assert(places[a] < places[e - 1]);
    } else {
        assert(places.subrange(a, e - 1) =~= Seq::<int>::empty());
        assert(text_between(texts, from, last) == Seq::<char>::empty());
        assert(probs_between(texts, probs, from, last) == Seq::<T>::empty());
        assert(own.drop_last().len() == 0);
    }
    assert(dtw::joined(texts, own.drop_last()) =~= text_between(texts, from, last));
    assert(dtw::known_probs(probs, own.drop_last()) =~= probs_between(texts, probs, from, last));
    assert(dtw::known_probs(probs, own) == if last < probs.len() {
        dtw::known_probs(probs, own.drop_last()).push(probs[last])
    } else {
        dtw::known_probs(probs, own.drop_last())
    });
    assert(text_between(texts, from, last + 1) == text_between(texts, from, last)
        + crate::text::trimmed(texts[last]));
    assert(dtw::is_visible(texts[places[e - 1]]));
    assert(probs_between(texts, probs, from, last + 1) == if last < probs.len() {
        probs_between(texts, probs, from, last).push(probs[last])
    } else {
        probs_between(texts, probs, from, last)
    });
    assert(dtw::joined(texts, own) == dtw::joined(texts, own.drop_last()) + crate::text::trimmed(
        texts[last],
    ));
    assert forall|i: int| last + 1 <= i < to implies !#[trigger] has_text(texts, i) by {
        lemma_gap(texts, e - 1, i);
    }
    lemma_nothing_between(texts, probs, from, last + 1, to);
}

/// A text that begins and ends with a character that is not white space is not changed by trimming.
proof fn lemma_trimmed_same(s: Seq<char>)
    requires
        s.len() > 0,
        !crate::text::is_white_space(s.first()),
        !crate::text::is_white_space(s.last()),
    ensures
        crate::text::trimmed(s) == s,
{
}

/// Joined texts of visible tokens begin and end as trimmed texts do.
proof fn lemma_joined_is_trimmed(texts: Seq<Seq<char>>, places: Seq<int>)
    requires
        places.len() > 0,
        forall|i: int|
            0 <= i < places.len() ==> crate::text::trimmed(texts[#[trigger] places[i]]).len() > 0,
    ensures
        dtw::joined(texts, places).len() > 0,
        !crate::text::is_white_space(dtw::joined(texts, places).first()),
        !crate::text::is_white_space(dtw::joined(texts, places).last()),
    decreases places.len(),
{
    let last = crate::text::trimmed(texts[places.last()]);
    crate::text::law_trimmed_is_trim(texts[places.last()]);
    assert(places.last() == places[places.len() - 1]);
    assert(last.len() > 0);
    let shorter = places.drop_last();
    let all = dtw::joined(texts, places);
    assert(all == dtw::joined(texts, shorter) + last);
    assert(all.last() == last.last());
    if shorter.len() > 0 {
        assert forall|i: int| 0 <= i < shorter.len() implies crate::text::trimmed(
            texts[#[trigger] shorter[i]],
        ).len() > 0 by {
            assert(shorter[i] == places[i]);
        }
        lemma_joined_is_trimmed(texts, shorter);
        assert(all.first() == dtw::joined(texts, shorter).first());
    } else {
        assert(dtw::joined(texts, shorter) == Seq::<char>::empty());
        assert(all =~= last);
    }
}

/// The tokens that begin the words of the visible tokens from number `m` on.
spec fn starts_from(texts: Seq<Seq<char>>, places: Seq<int>, m: int) -> Seq<int>
    decreases places.len() - m,
{
    if m >= places.len() {
        Seq::empty()
    } else {
        proof {
            dtw::lemma_next_word(texts, places, m + 1);
        }
        seq![places[m]] + starts_from(texts, places, dtw::next_word(texts, places, m + 1))
    }
}

/// `w` is the word of the tokens from `a` up to `b`, behind which a word begins at `b` if `b` is a
/// token: the trimmed texts of its tokens, the start of its first token (or `zero`), the start of the
/// next word or the end of the last token (or its own start), and its tokens' probabilities.
pub open spec fn is_word<T>(
    texts: Seq<Seq<char>>,
    times: Seq<(T, T)>,
    probs: Seq<T>,
    zero: T,
    a: int,
    b: int,
    w: Word<T>,
) -> bool {
    &&& w.text == text_between(texts, a, b)
    &&& w.start == if a < times.len() {
        times[a].0
    } else {
        zero
    }
    &&& w.end == if b < texts.len() {
        if b < times.len() {
            times[b].0
        } else {
            w.start
        }
    } else if times.len() > 0 {
        times[times.len() - 1].1
    } else {
        w.start
    }
    &&& w.probs == probs_between(texts, probs, a, b)
}

/// Which visible token the next word begins with.
proof fn lemma_next_is_first(texts: Seq<Seq<char>>, places: Seq<int>, m: int)
    requires
        0 <= m <= places.len(),
    ensures
        forall|k: int|
            m <= k < dtw::next_word(texts, places, m) ==> !crate::text::begins_with_space(
                texts[#[trigger] places[k]],
            ),
        dtw::next_word(texts, places, m) < places.len() ==> crate::text::begins_with_space(
            texts[places[dtw::next_word(texts, places, m)]],
        ),
    decreases places.len() - m,
{
    if m < places.len() && !crate::text::begins_with_space(texts[places[m]]) {
        lemma_next_is_first(texts, places, m + 1);
    }
}

/// The words of the visible tokens from number `m` on, and where they begin.
proof fn lemma_words_from<T>(
    texts: Seq<Seq<char>>,
    times: Seq<(T, T)>,
    probs: Seq<T>,
    zero: T,
    m: int,
)
    requires
        0 <= m <= dtw::visible(texts).len(),
    ensures
        ({
            let places = dtw::visible(texts);
            let words = dtw::words_of(texts, times, probs, zero, places, m);
            let starts = starts_from(texts, places, m);
            &&& starts.len() == words.len()
            &&& m < places.len() ==> starts.len() > 0 && starts[0] == places[m]
            &&& forall|k: int|
                0 <= k < words.len() ==> is_word(
                    texts,
                    times,
                    probs,
                    zero,
                    starts[k],
                    if k + 1 < starts.len() {
                        starts[k + 1]
                    } else {
                        texts.len() as int
                    },
                    #[trigger] words[k],
                )
            &&& forall|k: int, l: int|
                0 <= k < l < starts.len() ==> #[trigger] starts[k] < #[trigger] starts[l]
            &&& forall|k: int|
                0 <= k < starts.len() ==> has_text(texts, #[trigger] starts[k]) && (k > 0
                    ==> crate::text::begins_with_space(texts[starts[k]]))
            &&& forall|k: int|
                m <= k < places.len() && (k == m || crate::text::begins_with_space(
                    texts[#[trigger] places[k]],
                )) ==> starts.contains(places[k])
        }),
    decreases dtw::visible(texts).len() - m,
{
    let places = dtw::visible(texts);
    dtw::lemma_visible(texts);
    let words = dtw::words_of(texts, times, probs, zero, places, m);
    let starts = starts_from(texts, places, m);
    if m < places.len() {
        let e = dtw::next_word(texts, places, m + 1);
        dtw::lemma_next_word(texts, places, m + 1);
        lemma_next_is_first(texts, places, m + 1);
        lemma_words_from(texts, times, probs, zero, e);
        let later = starts_from(texts, places, e);
        let others = dtw::words_of(texts, times, probs, zero, places, e);
        let first = dtw::word_of(texts, times, probs, zero, places, m, e);
        assert(starts == seq![places[m]] + later);
        assert(words == seq![first] + others);
        lemma_run(texts, probs, m, e);
        let own = places.subrange(m, e);
        assert forall|i: int| 0 <= i < own.len() implies crate::text::trimmed(
            texts[#[trigger] own[i]],
        ).len() > 0 by {
            assert(own[i] == places[m + i]);
            assert(dtw::is_visible(texts[places[m + i]]));
        }
        lemma_joined_is_trimmed(texts, own);
        lemma_trimmed_same(dtw::joined(texts, own));
        assert forall|k: int| 0 <= k < words.len() implies is_word(
            texts,
            times,
            probs,
            zero,
            starts[k],
            if k + 1 < starts.len() {
                starts[k + 1]
            } else {
                texts.len() as int
            },
            #[trigger] words[k],
        ) by {
            if k > 0 {
                assert(words[k] == others[k - 1]);
                assert(starts[k] == later[k - 1]);
            } else {
                assert(words[0] == first);
                if e < places.len() {
                    assert(starts[1] == later[0]);
                } else {
                    assert(later.len() == 0);
                }
            }
        }
        assert forall|k: int, l: int| 0 <= k < l < starts.len() implies #[trigger] starts[k]
            < #[trigger] starts[l] by {
            assert(starts[l] == later[l - 1]);
            assert(e < places.len());
            assert(places[m] < places[e]);
            if k > 0 {
                assert(starts[k] == later[k - 1]);
            } else if l > 1 {
                assert(later[0] < later[l - 1]);
            }
        }
        assert forall|k: int| 0 <= k < starts.len() implies has_text(texts, #[trigger] starts[k])
            && (k > 0 ==> crate::text::begins_with_space(texts[starts[k]])) by {
            assert(dtw::is_visible(texts[places[m]]));
            if k > 0 {
                assert(starts[k] == later[k - 1]);
                if k == 1 {
                    assert(later[0] == places[e]);
                }
            }
        }
        assert forall|k: int|
            m <= k < places.len() && (k == m || crate::text::begins_with_space(
                texts[#[trigger] places[k]],
            )) implies starts.contains(places[k]) by {
            if k == m {
                assert(starts[0] == places[m]);
            } else {
                assert(k >= e);
                assert(later.contains(places[k]));
                let i = choose|i: int| 0 <= i < later.len() && later[i] == places[k];
                assert(starts[i + 1] == places[k]);
            }
        }
    }
}

/// Words are made of the tokens between the tokens that begin one: there is one word for every token
/// that begins a word, in their order; it has the texts and probabilities of the tokens from that one
/// up to the next, starts with its first token and ends where the next word starts, the last one with
/// the last token.
pub proof fn law_words_lie_between_word_starts<T>(
    texts: Seq<Seq<char>>,
    times: Seq<(T, T)>,
    probs: Seq<T>,
    zero: T,
)
    ensures
        exists|starts: Seq<int>|
            #![trigger starts.len()]
            {
                let words = dtw::words_of(texts, times, probs, zero, dtw::visible(texts), 0);
                &&& starts.len() == words.len()
                &&& forall|k: int, l: int|
                    0 <= k < l < starts.len() ==> #[trigger] starts[k] < #[trigger] starts[l]
                &&& forall|i: int| #[trigger] starts.contains(i) <==> begins_word(texts, i)
                &&& forall|k: int|
                    0 <= k < words.len() ==> is_word(
                        texts,
                        times,
                        probs,
                        zero,
                        starts[k],
                        if k + 1 < starts.len() {
                            starts[k + 1]
                        } else {
                            texts.len() as int
                        },
                        #[trigger] words[k],
                    )
            },
{
    let places = dtw::visible(texts);
    dtw::lemma_visible(texts);
    lemma_words_from(texts, times, probs, zero, 0);
    let starts = starts_from(texts, places, 0);
    assert forall|i: int| #[trigger] starts.contains(i) <==> begins_word(texts, i) by {
        if starts.contains(i) {
            let k = choose|k: int| 0 <= k < starts.len() && starts[k] == i;
            assert(has_text(texts, starts[k]));
            if k == 0 {
                assert forall|j: int| 0 <= j < i implies !#[trigger] has_text(texts, j) by {
                    if has_text(texts, j) {
                        lemma_visible_complete(texts, j);
                        let n = choose|n: int| 0 <= n < places.len() && #[trigger] places[n] == j;
                        if n > 0 {
                            assert(places[0] < places[n]);
                        }
                    }
                }
            }
        }
        if begins_word(texts, i) {
            lemma_visible_complete(texts, i);
            let n = choose|n: int| 0 <= n < places.len() && #[trigger] places[n] == i;
            if !crate::text::begins_with_space(texts[i]) && n > 0 {
                assert(places[0] < places[n]);
                assert(dtw::is_visible(texts[places[0]]));
                assert(has_text(texts, places[0]));
            }
            assert(starts.contains(places[n]));
        }
    }
}

/// An alignment gives every token its times: times the sample rate, a token starts at the hops before
/// the furthest frame that it or a token before it attends to most, and ends where the next token
/// starts, the last one a hop later.
pub proof fn law_alignment_follows_attention<
    T: Div<Output = T>,
    B: Fn(T) -> u32,
    N: Fn(usize) -> T,
    M: Fn(T, T) -> T,
>(
    weights: Seq<T>,
    n_tokens: usize,
    n_frames: usize,
    hop_length: usize,
    sample_rate: usize,
    to_bits: B,
    count: N,
    larger: M,
    r: Seq<(T, T)>,
    v: spec_fn(T) -> real,
    t: int,
)
    requires
        exact::divides(v),
        forall|n: usize, x: T| #[trigger]
            call_ensures(count, (n,), x) ==> v(x) == (n as int) as real,
        forall|a: T, b: T, x: T| #[trigger]
            call_ensures(larger, (a, b), x) ==> v(x) == if v(a) >= v(b) {
                v(a)
            } else {
                v(b)
            },
        forall|a: T, b: u32| #[trigger]
            call_ensures(to_bits, (a,), b) ==> !crate::bits::is_nan(b),
        0 < n_frames,
        0 < sample_rate,
        n_tokens * n_frames <= weights.len(),
        n_frames * hop_length <= usize::MAX,
        dtw::is_alignment(
            weights,
            n_tokens,
            n_frames,
            hop_length,
            sample_rate,
            to_bits,
            count,
            larger,
            r,
        ),
        0 <= t < n_tokens,
    ensures
        r.len() == n_tokens,
        exists|bits: Seq<u32>, start: int|
            #![trigger starts_at(bits, n_frames as int, t, start)]
            {
                &&& crate::bits::are_bits(to_bits, weights, bits)
                &&& starts_at(bits, n_frames as int, t, start)
                &&& v(r[t].0) * (sample_rate as int) as real == (start * hop_length) as real
                &&& t + 1 == n_tokens ==> v(r[t].1) * (sample_rate as int) as real == ((start + 1)
                    * hop_length) as real
                &&& t + 1 < n_tokens ==> exists|next: int| #[trigger]
                    starts_at(bits, n_frames as int, t + 1, next) && v(r[t].1) * (
                    sample_rate as int) as real == (next * hop_length) as real
            },
{
    let bits = choose|bits: Seq<u32>| #[trigger]
        crate::bits::are_bits(to_bits, weights, bits) && forall|t: int|
            0 <= t < n_tokens ==> dtw::are_span_times(
                count,
                larger,
                sample_rate,
                dtw::sample_span(bits, n_tokens, n_frames, hop_length, t),
                #[trigger] r[t],
            );
    let times = r[t];
    law_times_are_frames_in_seconds(
        count,
        larger,
        v,
        bits,
        n_tokens,
        n_frames,
        hop_length,
        sample_rate,
        t,
        times,
    );
    assert forall|i: int| 0 <= i < bits.len() implies !crate::bits::is_nan(#[trigger] bits[i]) by {
        assert(call_ensures(to_bits, (weights[i],), bits[i]));
    }
    law_tokens_start_at_furthest_peak(bits, n_tokens as int, n_frames as int, t);
    dtw::law_spans_are_monotone(bits, n_tokens as int, n_frames as int, t);
    let start = dtw::span(bits, n_tokens as int, n_frames as int, t).0;
    assert(starts_at(bits, n_frames as int, t, start));
    if t + 1 < n_tokens {
        law_tokens_start_at_furthest_peak(bits, n_tokens as int, n_frames as int, t + 1);
        let next = dtw::span(bits, n_tokens as int, n_frames as int, t + 1).0;
        assert(starts_at(bits, n_frames as int, t + 1, next));
    } else {
        law_last_token_spans_one_frame(bits, n_tokens as int, n_frames as int);
    }
}

/// Whether token `t` starts at frame `start`: the furthest of the frames that it and the tokens before
/// it attend to most.
pub open spec fn starts_at(bits: Seq<u32>, n_frames: int, t: int, start: int) -> bool {
    &&& exists|u: int| 0 <= u <= t && #[trigger] peaks_at(bits, n_frames, u, start)
    &&& forall|u: int, f: int|
        0 <= u <= t && start < f < n_frames ==> !#[trigger] peaks_at(bits, n_frames, u, f)
}

/// Word segments are the words between the tokens that begin one, in their order: each has the text,
/// the start and the end of its word, and as confidence the mean of its tokens' probabilities, zero
/// where none is known.
pub proof fn law_segments_are_the_words<T: Add<Output = T> + Div<Output = T>, N: Fn(usize) -> T>(
    texts: Seq<Seq<char>>,
    times: Seq<(T, T)>,
    probs: Seq<T>,
    zero: T,
    count: N,
    segments: Seq<WordSegment<T>>,
    v: spec_fn(T) -> real,
)
    requires
        dtw::are_words(texts, times, probs, zero, count, segments),
        exact::adds(v),
        exact::divides(v),
        v(zero) == 0real,
        forall|n: usize, x: T| #[trigger]
            call_ensures(count, (n,), x) ==> v(x) == (n as int) as real,
    ensures
        exists|starts: Seq<int>|
            #![trigger starts.len()]
            {
                &&& starts.len() == segments.len()
                &&& forall|k: int, l: int|
                    0 <= k < l < starts.len() ==> #[trigger] starts[k] < #[trigger] starts[l]
                &&& forall|i: int| #[trigger] starts.contains(i) <==> begins_word(texts, i)
                &&& forall|k: int|
                    0 <= k < segments.len() ==> is_segment(
                        texts,
                        times,
                        probs,
                        zero,
                        v,
                        starts[k],
                        if k + 1 < starts.len() {
                            starts[k + 1]
                        } else {
                            texts.len() as int
                        },
                        #[trigger] segments[k],
                    )
            },
{
    law_words_lie_between_word_starts(texts, times, probs, zero);
    let words = dtw::words_of(texts, times, probs, zero, dtw::visible(texts), 0);
    let starts = choose|starts: Seq<int>|
        #![trigger starts.len()]
        {
            &&& starts.len() == words.len()
            &&& forall|k: int, l: int|
                0 <= k < l < starts.len() ==> #[trigger] starts[k] < #[trigger] starts[l]
            &&& forall|i: int| #[trigger] starts.contains(i) <==> begins_word(texts, i)
            &&& forall|k: int|
                0 <= k < words.len() ==> is_word(
                    texts,
                    times,
                    probs,
                    zero,
                    starts[k],
                    if k + 1 < starts.len() {
                        starts[k + 1]
                    } else {
                        texts.len() as int
                    },
                    #[trigger] words[k],
                )
        };
    assert forall|k: int| 0 <= k < segments.len() implies is_segment(
        texts,
        times,
        probs,
        zero,
        v,
        starts[k],
        if k + 1 < starts.len() {
            starts[k + 1]
        } else {
            texts.len() as int
        },
        #[trigger] segments[k],
    ) by {
        let w = words[k];
        assert(dtw::stands_for(zero, count, segments[k], w));
        law_confidence_is_mean(zero, count, v, w.probs, segments[k].confidence);
    }
    assert(starts.len() == segments.len());
}

/// `s` is the segment of the word of the tokens from `a` up to `b`.
pub open spec fn is_segment<T>(
    texts: Seq<Seq<char>>,
    times: Seq<(T, T)>,
    probs: Seq<T>,
    zero: T,
    v: spec_fn(T) -> real,
    a: int,
    b: int,
    s: WordSegment<T>,
) -> bool {
    let own = probs_between(texts, probs, a, b);
    &&& is_word(
        texts,
        times,
        probs,
        zero,
        a,
        b,
        Word { text: s.word@, start: s.start, end: s.end, probs: own },
    )
    &&& own.len() == 0 ==> v(s.confidence) == 0real
    &&& v(s.confidence) * own.len() as real == exact::total(own.len(), |i: int| v(own[i]))
}

} // verus!
