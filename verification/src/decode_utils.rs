//! Choosing tokens: argmax, ranking, sampling, suppression and n-gram blocking.
//!
//! Logits are single-precision bit patterns wherever they are compared.

use crate::tokenizer::SpecialTokens;
use vstd::prelude::*;

verus! {

/// Extra decode-time constraints passed through to the decoders.
pub struct DecodeConstraints<'a> {
    /// Token ids whose logits are forced to negative infinity.
    pub suppress: &'a [u32],
    /// N-gram size for repetition blocking (0 = disabled).
    pub no_repeat_ngram_size: usize,
}

/// The token of the largest logit: the last one where several are equal, 0 where there is none.
/// A logit that is not a number compares as equal to any other.
pub fn argmax(logits: &[u32]) -> (token: u32)
    ensures
        token == crate::bits::leader(logits@) as u32,
{
    crate::bits::find_leader(logits) as u32
}

/// The language token of the largest logit among the language tokens that the logits cover;
/// English if they cover none.
pub open spec fn best_language(logits: Seq<u32>) -> u32 {
    let end = if logits.len() < crate::languages::LANG_TOKEN_END {
        logits.len() as int
    } else {
        crate::languages::LANG_TOKEN_END as int
    };
    if end <= crate::languages::LANG_TOKEN_START {
        crate::languages::LANG_TOKEN_START
    } else {
        (crate::languages::LANG_TOKEN_START + crate::bits::leader(
            logits.subrange(crate::languages::LANG_TOKEN_START as int, end),
        )) as u32
    }
}

/// Executable form of [`best_language`].
pub fn pick_language(logits: &[u32]) -> (token: u32)
    ensures
        token == best_language(logits@),
        crate::languages::LANG_TOKEN_START <= token < crate::languages::LANG_TOKEN_END,
{
    let len: usize = logits.len();
    let end: usize = if len < 50358 {
        len
    } else {
        50358
    };
    if end <= 50259 {
        return crate::languages::LANG_TOKEN_START;
    }
    let offset: usize = crate::bits::find_leader(&logits[50259..end]);
    crate::languages::LANG_TOKEN_START + offset as u32
}

/// `pairs` are the `k` best of `log_probs`, or all of them if they are fewer: each with its
/// token, from the greatest to the least, equal ones by their token.
pub open spec fn are_best(log_probs: Seq<u32>, k: nat, pairs: Seq<(u32, u32)>) -> bool {
    exists|order: Seq<usize>| #[trigger]
        crate::ranking::is_ranking(log_probs, order) && are_first_of(log_probs, order, k, pairs)
}

/// `pairs` are the values and tokens at the first `k` places of `order`.
pub open spec fn are_first_of(
    log_probs: Seq<u32>,
    order: Seq<usize>,
    k: nat,
    pairs: Seq<(u32, u32)>,
) -> bool {
    &&& pairs.len() == (if k < order.len() {
        k
    } else {
        order.len()
    })
    &&& forall|i: int|
        0 <= i < pairs.len() ==> #[trigger] pairs[i] == (
            log_probs[order[i] as int],
            order[i] as u32,
        )
}

/// Up to `k` (log-probability, token) pairs, from the greatest log-probability to the least.
pub fn top_k_log_probs(log_probs: &[u32], k: usize) -> (pairs: Vec<(u32, u32)>)
    requires
        forall|i: int| 0 <= i < log_probs@.len() ==> !crate::bits::is_nan(#[trigger] log_probs@[i]),
    ensures
        are_best(log_probs@, k as nat, pairs@),
{
    let order: Vec<usize> = crate::ranking::rank_places(log_probs);
    let n: usize = if k < order.len() {
        k
    } else {
        order.len()
    };
    let mut pairs: Vec<(u32, u32)> = Vec::with_capacity(n);
    let mut i: usize = 0;
    while i < n
        invariant
            i <= n <= order@.len(),
            crate::ranking::is_ranking(log_probs@, order@),
            pairs@.len() == i,
            forall|j: int|
                0 <= j < i ==> #[trigger] pairs@[j] == (
                    log_probs@[order@[j] as int],
                    order@[j] as u32,
                ),
        decreases n - i,
    {
        let place: usize = order[i];
        pairs.push((log_probs[place], place as u32));
        i = i + 1;
    }
    assert(are_first_of(log_probs@, order@, k as nat, pairs@));
    pairs
}

/// No logit that was left out of the best is greater than one among them.
pub proof fn law_best_are_greatest(
    log_probs: Seq<u32>,
    k: nat,
    pairs: Seq<(u32, u32)>,
    i: int,
    t: usize,
)
    requires
        are_best(log_probs, k, pairs),
        log_probs.len() <= u32::MAX,
        0 <= i < pairs.len(),
        t < log_probs.len(),
        forall|j: int| 0 <= j < pairs.len() ==> (#[trigger] pairs[j]).1 != t,
    ensures
        pairs[i].1 < log_probs.len(),
        pairs[i].0 == log_probs[pairs[i].1 as int],
        crate::bits::rank(log_probs[t as int]) <= crate::bits::rank(pairs[i].0),
{
    let order = choose|order: Seq<usize>| #[trigger]
        crate::ranking::is_ranking(log_probs, order) && are_first_of(log_probs, order, k, pairs);
    assert(order.contains(t));
    let p = choose|p: int| 0 <= p < order.len() && order[p] == t;
    if p < pairs.len() {
        assert(pairs[p].1 == t);
    }
    assert(i < p);
    assert(crate::ranking::before(log_probs, order[i], order[p]));
}

/// The windows of `n` tokens, from left to right.
pub open spec fn ngrams(tokens: Seq<u32>, n: nat) -> Seq<Seq<u32>> {
    if n == 0 || tokens.len() < n {
        Seq::empty()
    } else {
        Seq::new((tokens.len() - n + 1) as nat, |i: int| tokens.subrange(i, i + n))
    }
}

/// Collect all n-grams of the given size from a token sequence.
pub fn collect_ngrams(tokens: &[u32], n: usize) -> (r: Vec<Vec<u32>>)
    ensures
        r@.map_values(|v: Vec<u32>| v@) == ngrams(tokens@, n as nat),
{
    let mut r: Vec<Vec<u32>> = Vec::new();
    if tokens.len() < n || n == 0 {
        assert(r@.map_values(|v: Vec<u32>| v@) =~= ngrams(tokens@, n as nat));
        return r;
    }
    let len: usize = tokens.len();
    let count: usize = len - n + 1;
    let mut i: usize = 0;
    while i < count
        invariant
            i <= count,
            len == tokens@.len(),
            count == tokens@.len() - n + 1,
            1 <= n <= tokens@.len(),
            r@.len() == i,
            forall|j: int| 0 <= j < i ==> (#[trigger] r@[j])@ == tokens@.subrange(j, j + n),
        decreases count - i,
    {
        r.push(vstd::slice::slice_to_vec(&tokens[i..i + n]));
        i = i + 1;
    }
    assert(r@.map_values(|v: Vec<u32>| v@) =~= ngrams(tokens@, n as nat));
    r
}

/// The last `n - 1` tokens, which a further token would complete to an n-gram.
pub open spec fn ngram_prefix(tokens: Seq<u32>, n: nat) -> Seq<u32> {
    tokens.skip(tokens.len() - (n - 1))
}

/// Whether a further token `t` would complete an n-gram that `tokens` already has.
pub open spec fn repeats(tokens: Seq<u32>, n: nat, t: u32) -> bool {
    n > 0 && tokens.len() + 1 >= n && ngrams(tokens, n).contains(ngram_prefix(tokens, n).push(t))
}

/// Where no token completes an n-gram that stands before it, no n-gram occurs twice.
pub proof fn law_ngrams_are_distinct(tokens: Seq<u32>, n: nat, a: int, b: int)
    requires
        n > 0,
        forall|i: int|
            0 <= i < tokens.len() ==> !repeats(tokens.take(i), n, #[trigger] tokens[i]),
        0 <= a < b < ngrams(tokens, n).len(),
    ensures
        ngrams(tokens, n)[a] != ngrams(tokens, n)[b],
{
    let i = b + n - 1;
    let earlier = tokens.take(i);
    let gram = ngrams(tokens, n)[b];
    assert(ngram_prefix(earlier, n).push(tokens[i]) =~= gram);
    assert(ngrams(earlier, n)[a] =~= ngrams(tokens, n)[a]);
    if ngrams(tokens, n)[a] == gram {
        assert(ngrams(earlier, n).contains(gram));
        assert(repeats(earlier, n, tokens[i]));
    }
}

/// The tokens that would complete an n-gram that `tokens` already has.
fn repeating_tokens(tokens: &[u32], n: usize) -> (r: Vec<u32>)
    ensures
        forall|t: u32| #[trigger] r@.contains(t) <==> repeats(tokens@, n as nat, t),
{
    let mut r: Vec<u32> = Vec::new();
    if n == 0 || tokens.len() < n {
        return r;
    }
    let len: usize = tokens.len();
    let ghost prefix = ngram_prefix(tokens@, n as nat);
    let ghost grams = ngrams(tokens@, n as nat);
    let mut i: usize = 0;
    while i <= len - n
        invariant
            len == tokens@.len(),
            1 <= n <= len,
            i <= len - n + 1,
            prefix == tokens@.skip(len - (n - 1)),
            grams == ngrams(tokens@, n as nat),
            forall|t: u32| #[trigger]
                r@.contains(t) <==> exists|j: int|
                    0 <= j < i && #[trigger] tokens@.subrange(j, j + n) == prefix.push(t),
        decreases len - i,
    {
        let mut k: usize = 0;
        while k < n - 1 && tokens[i + k] == tokens[len - (n - 1) + k]
            invariant
                len == tokens@.len(),
                1 <= n <= len,
                i + n <= len,
                k <= n - 1,
                forall|m: int|
                    0 <= m < k ==> #[trigger] tokens@[i + m] == tokens@[len - (n - 1) + m],
            decreases n - k,
        {
            k = k + 1;
        }
        let ghost gram = tokens@.subrange(i as int, i + n);
        let ghost before = r@;
        if k == n - 1 {
            let last: u32 = tokens[i + n - 1];
            r.push(last);
            proof {
                assert forall|m: int| 0 <= m < n implies gram[m] == prefix.push(last)[m] by {
                    if m < n - 1 {
                        assert(tokens@[i + m] == tokens@[len - (n - 1) + m]);
                    }
                }
                assert(gram =~= prefix.push(last));
                assert forall|t: u32| #[trigger] r@.contains(t) <==> exists|j: int|
                    0 <= j < i + 1 && #[trigger] tokens@.subrange(j, j + n) == prefix.push(t) by {
                    if r@.contains(t) {
                        let a = choose|a: int| 0 <= a < r@.len() && r@[a] == t;
                        if a < before.len() {
                            assert(before[a] == t);
                            assert(before.contains(t));
                        } else {
                            assert(tokens@.subrange(i as int, i + n) == prefix.push(t));
                        }
                    }
                    if exists|j: int|
                        0 <= j < i + 1 && #[trigger] tokens@.subrange(j, j + n) == prefix.push(t) {
                        let j = choose|j: int|
                            0 <= j < i + 1 && #[trigger] tokens@.subrange(j, j + n) == prefix.push(
                                t,
                            );
                        if j < i {
                            assert(before.contains(t));
                            let a = choose|a: int| 0 <= a < before.len() && before[a] == t;
                            assert(r@[a] == t);
                        } else {
                            assert(prefix.push(t)[n - 1] == prefix.push(last)[n - 1]);
                            assert(r@[before.len() as int] == t);
                        }
                    }
                }
            }
        } else {
            proof {
                assert(gram[k as int] != prefix[k as int]);
                assert forall|t: u32| gram != prefix.push(t) by {
                    assert(prefix.push(t)[k as int] == prefix[k as int]);
                }
                assert forall|t: u32| #[trigger] r@.contains(t) <==> exists|j: int|
                    0 <= j < i + 1 && #[trigger] tokens@.subrange(j, j + n) == prefix.push(t) by {
                    if exists|j: int|
                        0 <= j < i + 1 && #[trigger] tokens@.subrange(j, j + n) == prefix.push(t) {
                        let j = choose|j: int|
                            0 <= j < i + 1 && #[trigger] tokens@.subrange(j, j + n) == prefix.push(
                                t,
                            );
                        if j == i {
                            assert(gram == prefix.push(t));
                        }
                    }
                }
            }
        }
        i = i + 1;
    }
    assert forall|t: u32| #[trigger] r@.contains(t) <==> repeats(tokens@, n as nat, t) by {
        if r@.contains(t) {
            let j = choose|j: int|
                0 <= j < i && #[trigger] tokens@.subrange(j, j + n) == prefix.push(t);
            assert(grams[j] == prefix.push(t));
        }
        if repeats(tokens@, n as nat, t) {
            let j = choose|j: int| 0 <= j < grams.len() && grams[j] == prefix.push(t);
            assert(tokens@.subrange(j, j + n) == prefix.push(t));
        }
    }
    r
}

/// Whether `s` has the element `x`.
fn has_element(s: &[u32], x: u32) -> (r: bool)
    ensures
        r == s@.contains(x),
{
    let mut i: usize = 0;
    while i < s.len()
        invariant
            i <= s@.len(),
            forall|j: int| 0 <= j < i ==> s@[j] != x,
        decreases s@.len() - i,
    {
        if s[i] == x {
            return true;
        }
        i = i + 1;
    }
    false
}

/// Apply no-repeat-ngram blocking: if appending a token would create an n-gram that already
/// appears in the output, its logit becomes negative infinity. Logits behind the last token are
/// left alone.
pub fn apply_no_repeat_ngram(logits: &mut Vec<u32>, tokens: &[u32], ngram_size: usize)
    ensures
        final(logits)@.len() == old(logits)@.len(),
        forall|i: int|
            0 <= i < old(logits)@.len() ==> #[trigger] final(logits)@[i] == if i <= u32::MAX
                && repeats(tokens@, ngram_size as nat, i as u32) {
                crate::bits::NEG_INFINITY
            } else {
                old(logits)@[i]
            },
{
    let blocked: Vec<u32> = repeating_tokens(tokens, ngram_size);
    let mut i: usize = 0;
    while i < logits.len()
        invariant
            i <= logits@.len(),
            logits@.len() == old(logits)@.len(),
            forall|t: u32| #[trigger]
                blocked@.contains(t) <==> repeats(tokens@, ngram_size as nat, t),
            forall|j: int| i <= j < logits@.len() ==> logits@[j] == old(logits)@[j],
            forall|j: int|
                0 <= j < i ==> #[trigger] logits@[j] == if j <= u32::MAX && repeats(
                    tokens@,
                    ngram_size as nat,
                    j as u32,
                ) {
                    crate::bits::NEG_INFINITY
                } else {
                    old(logits)@[j]
                },
        decreases logits@.len() - i,
    {
        if i as u64 <= u32::MAX as u64 && has_element(blocked.as_slice(), i as u32) {
            logits.set(i, crate::bits::NEG_INFINITY);
        }
        i = i + 1;
    }
}

/// Apply token suppression by setting logits to negative infinity. Tokens without a logit are
/// ignored.
pub fn apply_suppress_tokens(logits: &mut Vec<u32>, suppress: &[u32])
    ensures
        final(logits)@.len() == old(logits)@.len(),
        forall|i: int|
            0 <= i < old(logits)@.len() ==> #[trigger] final(logits)@[i] == if exists|j: int|
                0 <= j < suppress@.len() && #[trigger] suppress@[j] == i {
                crate::bits::NEG_INFINITY
            } else {
                old(logits)@[i]
            },
{
    let mut k: usize = 0;
    while k < suppress.len()
        invariant
            k <= suppress@.len(),
            logits@.len() == old(logits)@.len(),
            forall|i: int|
                0 <= i < logits@.len() ==> #[trigger] logits@[i] == if exists|j: int|
                    0 <= j < k && #[trigger] suppress@[j] == i {
                    crate::bits::NEG_INFINITY
                } else {
                    old(logits)@[i]
                },
        decreases suppress@.len() - k,
    {
        let t: usize = suppress[k] as usize;
        let ghost before = logits@;
        if t < logits.len() {
            logits.set(t, crate::bits::NEG_INFINITY);
        }
        proof {
            assert forall|i: int| 0 <= i < logits@.len() implies #[trigger] logits@[i]
                == if exists|j: int| 0 <= j < k + 1 && #[trigger] suppress@[j] == i {
                crate::bits::NEG_INFINITY
            } else {
                old(logits)@[i]
            } by {
                let earlier = exists|j: int| 0 <= j < k && #[trigger] suppress@[j] == i;
                let now = exists|j: int| 0 <= j < k + 1 && #[trigger] suppress@[j] == i;
                if i == t {
                    assert(suppress@[k as int] == i);
                    assert(now);
                } else {
                    assert(logits@[i] == before[i]);
                    if now {
                        let j = choose|j: int| 0 <= j < k + 1 && #[trigger] suppress@[j] == i;
                        assert(0 <= j < k && suppress@[j] == i);
                    }
                    assert(now == earlier);
                }
            }
        }
        k = k + 1;
    }
}

/// The threshold that tells whether timestamp tokens stop decoding: the end-of-text token where
/// timestamps are off, else one that no token reaches.
pub open spec fn threshold(timestamps: bool, special: SpecialTokens) -> u32 {
    if timestamps {
        u32::MAX
    } else {
        special.eot
    }
}

/// Executable form of [`threshold`].
pub fn get_threshold(timestamps: bool, special: &SpecialTokens) -> (r: u32)
    ensures
        r == threshold(timestamps, *special),
{
    if timestamps {
        u32::MAX
    } else {
        special.eot
    }
}

/// Whether a token ends the output: the end-of-text token does, and so does every token above it
/// where the threshold is the end-of-text token.
pub open spec fn stops(token: u32, eot_threshold: u32, special: SpecialTokens) -> bool {
    token == special.eot || (eot_threshold == special.eot && token >= special.eot)
}

/// Determine if a token should stop decoding.
///
/// When timestamps are disabled (`eot_threshold == special.eot`), any token >= EOT is a stop
/// token. When timestamps are enabled, only the exact EOT token stops decoding: timestamp tokens,
/// which are above it, are allowed through so that they appear in the output.
pub fn is_stop_token(token: u32, eot_threshold: u32, special: &SpecialTokens) -> (r: bool)
    ensures
        r == stops(token, eot_threshold, *special),
{
    token == special.eot || (eot_threshold == special.eot && token >= special.eot)
}

/// The best are as many as asked for, or all where there are fewer; they are different tokens, each
/// with its own logit, and no later one has a greater logit than an earlier one. Equal ones stand in
/// the order of their tokens.
pub proof fn law_best_are_in_order(log_probs: Seq<u32>, k: nat, pairs: Seq<(u32, u32)>)
    requires
        are_best(log_probs, k, pairs),
        log_probs.len() <= u32::MAX,
    ensures
        k <= log_probs.len() ==> pairs.len() == k,
        k >= log_probs.len() ==> pairs.len() == log_probs.len(),
        forall|i: int|
            0 <= i < pairs.len() ==> (#[trigger] pairs[i]).1 < log_probs.len() && pairs[i].0
                == log_probs[pairs[i].1 as int],
        forall|i: int, j: int|
            0 <= i < j < pairs.len() ==> (#[trigger] pairs[i]).1 != (#[trigger] pairs[j]).1
                && crate::bits::rank(pairs[i].0) >= crate::bits::rank(pairs[j].0) && (
            crate::bits::rank(pairs[i].0) == crate::bits::rank(pairs[j].0) ==> pairs[i].1
                < pairs[j].1),
{
    let order = choose|order: Seq<usize>| #[trigger]
        crate::ranking::is_ranking(log_probs, order) && are_first_of(log_probs, order, k, pairs);
    assert forall|i: int| 0 <= i < pairs.len() implies (#[trigger] pairs[i]).1 < log_probs.len()
        && pairs[i].0 == log_probs[pairs[i].1 as int] by {
        assert(order[i] < log_probs.len());
    }
    assert forall|i: int, j: int| 0 <= i < j < pairs.len() implies (#[trigger] pairs[i]).1
        != (#[trigger] pairs[j]).1 && crate::bits::rank(pairs[i].0) >= crate::bits::rank(pairs[j].0)
        && (crate::bits::rank(pairs[i].0) == crate::bits::rank(pairs[j].0) ==> pairs[i].1
        < pairs[j].1) by {
        assert(order[i] < log_probs.len() && order[j] < log_probs.len());
        assert(crate::ranking::before(log_probs, order[i], order[j]));
    }
}

/// All windows of a token sequence are collected, from left to right.
pub proof fn law_ngrams_are_all_windows(tokens: Seq<u32>, n: nat)
    ensures
        n == 0 || n > tokens.len() ==> ngrams(tokens, n).len() == 0,
        0 < n <= tokens.len() ==> ngrams(tokens, n).len() == tokens.len() - n + 1,
        forall|i: int, j: int|
            #![trigger ngrams(tokens, n)[i][j]]
            0 <= i < ngrams(tokens, n).len() && 0 <= j < n ==> ngrams(tokens, n)[i].len() == n
                && ngrams(tokens, n)[i][j] == tokens[i + j],
{
}

} // verus!
