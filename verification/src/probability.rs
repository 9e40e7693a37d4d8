//! Log-probabilities and sampling over an abstract number type.
//!
//! The functions of single numbers (maximum, exponential, logarithm, comparisons) are the
//! caller's; the contracts say which values they are applied to and in which order.

pub mod laws;

use core::ops::{Add, Div, Mul, Sub};
use vstd::prelude::*;

verus! {

/// The functions of numbers that probabilities rest on.
pub struct LogitMath<T, M, E, N, B, G, L, F> {
    /// The additive zero.
    pub zero: T,
    /// The multiplicative one.
    pub one: T,
    /// The number below all others.
    pub lowest: T,
    /// The lowest temperature, 1e-6.
    pub floor: T,
    /// The larger of two numbers.
    pub larger: M,
    /// The exponential function.
    pub exp: E,
    /// The natural logarithm.
    pub ln: N,
    /// Bit pattern of a number, by which numbers are ordered.
    pub to_bits: B,
    /// Whether the first number is at least the second.
    pub at_least: G,
    /// Whether the first number is less than the second.
    pub below: L,
    /// The number of a bit pattern.
    pub from_bits: F,
}

/// Bit pattern of the lowest temperature, 1e-6.
pub const LOWEST_TEMPERATURE_BITS: u32 = 0x3586_37BD;

impl<
    T,
    M: Fn(T, T) -> T,
    E: Fn(T) -> T,
    N: Fn(T) -> T,
    B: Fn(T) -> u32,
    G: Fn(T, T) -> bool,
    L: Fn(T, T) -> bool,
    F: Fn(u32) -> T,
> LogitMath<T, M, E, N, B, G, L, F> {
    /// Every function accepts every number, and the constants are what they are for.
    pub open spec fn total(&self) -> bool {
        &&& forall|a: T, b: T| #[trigger] call_requires(self.larger, (a, b))
        &&& forall|a: T| #[trigger] call_requires(self.exp, (a,))
        &&& forall|a: T| #[trigger] call_requires(self.ln, (a,))
        &&& forall|a: T| #[trigger] call_requires(self.to_bits, (a,))
        &&& forall|a: T, b: T| #[trigger] call_requires(self.at_least, (a, b))
        &&& forall|a: T, b: T| #[trigger] call_requires(self.below, (a, b))
        &&& forall|b: u32| #[trigger] call_requires(self.from_bits, (b,))
        &&& call_ensures(self.from_bits, (crate::bits::ZERO_BITS,), self.zero)
        &&& call_ensures(self.from_bits, (crate::bits::ONE_BITS,), self.one)
        &&& call_ensures(self.from_bits, (crate::bits::NEG_INFINITY,), self.lowest)
        &&& call_ensures(self.from_bits, (LOWEST_TEMPERATURE_BITS,), self.floor)
    }

    /// Takes the functions, and computes the constants from them.
    pub fn new(
        larger: M,
        exp: E,
        ln: N,
        to_bits: B,
        at_least: G,
        below: L,
        from_bits: F,
    ) -> (r: Self)
        requires
            forall|a: T, b: T| #[trigger] call_requires(larger, (a, b)),
            forall|a: T| #[trigger] call_requires(exp, (a,)),
            forall|a: T| #[trigger] call_requires(ln, (a,)),
            forall|a: T| #[trigger] call_requires(to_bits, (a,)),
            forall|a: T, b: T| #[trigger] call_requires(at_least, (a, b)),
            forall|a: T, b: T| #[trigger] call_requires(below, (a, b)),
            forall|b: u32| #[trigger] call_requires(from_bits, (b,)),
        ensures
            r.total(),
            r.larger == larger,
            r.exp == exp,
            r.ln == ln,
            r.to_bits == to_bits,
            r.at_least == at_least,
            r.below == below,
            r.from_bits == from_bits,
    {
        let zero: T = from_bits(crate::bits::ZERO_BITS);
        let one: T = from_bits(crate::bits::ONE_BITS);
        let lowest: T = from_bits(crate::bits::NEG_INFINITY);
        let floor: T = from_bits(LOWEST_TEMPERATURE_BITS);
        LogitMath {
            zero,
            one,
            lowest,
            floor,
            larger,
            exp,
            ln,
            to_bits,
            at_least,
            below,
            from_bits,
        }
    }
}

/// `e` holds the exponentials of the differences of `x` to `top`.
pub open spec fn are_exps<T: Sub<Output = T>, E: Fn(T) -> T>(
    exp: E,
    x: Seq<T>,
    top: T,
    e: Seq<T>,
) -> bool {
    &&& e.len() == x.len()
    &&& forall|i: int| 0 <= i < x.len() ==> is_exp_of_difference(exp, x[i], top, #[trigger] e[i])
}

/// `e` is the exponential of `x - top`.
pub open spec fn is_exp_of_difference<T: Sub<Output = T>, E: Fn(T) -> T>(
    exp: E,
    x: T,
    top: T,
    e: T,
) -> bool {
    exists|d: T| #[trigger] crate::num::is_difference(x, top, d) && call_ensures(exp, (d,), e)
}

/// `r` is the logarithm of the sum of the exponentials of `x`, computed around the maximum `top`
/// from the exponentials `e`, their sum `s` and its logarithm `l`.
pub open spec fn log_sum_by<
    T: Add<Output = T> + Sub<Output = T>,
    M: Fn(T, T) -> T,
    E: Fn(T) -> T,
    N: Fn(T) -> T,
    B: Fn(T) -> u32,
    G: Fn(T, T) -> bool,
    L: Fn(T, T) -> bool,
    F: Fn(u32) -> T,
>(math: LogitMath<T, M, E, N, B, G, L, F>, x: Seq<T>, top: T, e: Seq<T>, s: T, l: T, r: T) -> bool {
    &&& crate::num::is_top(math.larger, math.lowest, x, top)
    &&& are_exps(math.exp, x, top, e)
    &&& crate::num::sum_of(math.zero, e, s)
    &&& call_ensures(math.ln, (s,), l)
    &&& crate::num::is_sum(top, l, r)
}

/// `r` is the logarithm of the sum of the exponentials of `x`, computed around the maximum.
pub open spec fn is_log_sum<
    T: Add<Output = T> + Sub<Output = T>,
    M: Fn(T, T) -> T,
    E: Fn(T) -> T,
    N: Fn(T) -> T,
    B: Fn(T) -> u32,
    G: Fn(T, T) -> bool,
    L: Fn(T, T) -> bool,
    F: Fn(u32) -> T,
>(math: LogitMath<T, M, E, N, B, G, L, F>, x: Seq<T>, r: T) -> bool {
    exists|top: T, e: Seq<T>, s: T, l: T| #[trigger] log_sum_by(math, x, top, e, s, l, r)
}

/// The logarithm of the sum of the exponentials of `x`, computed around the maximum.
pub fn log_sum<
    T: Copy + Add<Output = T> + Sub<Output = T>,
    M: Fn(T, T) -> T,
    E: Fn(T) -> T,
    N: Fn(T) -> T,
    B: Fn(T) -> u32,
    G: Fn(T, T) -> bool,
    L: Fn(T, T) -> bool,
    F: Fn(u32) -> T,
>(math: &LogitMath<T, M, E, N, B, G, L, F>, x: &[T]) -> (r: T)
    requires
        math.total(),
        crate::num::total_add::<T>(),
        crate::num::total_sub::<T>(),
    ensures
        is_log_sum(*math, x@, r),
{
    let top: T = crate::num::find_top(&math.larger, math.lowest, x);
    let mut e: Vec<T> = Vec::with_capacity(x.len());
    let mut i: usize = 0;
    while i < x.len()
        invariant
            i <= x@.len(),
            math.total(),
            crate::num::total_sub::<T>(),
            e@.len() == i,
            forall|j: int|
                0 <= j < i ==> is_exp_of_difference(math.exp, x@[j], top, #[trigger] e@[j]),
        decreases x@.len() - i,
    {
        let d: T = x[i] - top;
        let y: T = (math.exp)(d);
        assert(crate::num::is_difference(x@[i as int], top, d));
        e.push(y);
        i = i + 1;
    }
    let s: T = crate::num::sum(e.as_slice(), math.zero);
    let l: T = (math.ln)(s);
    let r: T = top + l;
    assert(log_sum_by(*math, x@, top, e@, s, l, r));
    r
}

/// `p` holds the differences of `x` to `l`.
pub open spec fn are_below<T: Sub<Output = T>>(x: Seq<T>, l: T, p: Seq<T>) -> bool {
    &&& p.len() == x.len()
    &&& forall|i: int| 0 <= i < x.len() ==> crate::num::is_difference(x[i], l, #[trigger] p[i])
}

/// `p` is the log-softmax of the logits.
pub open spec fn is_log_softmax<
    T: Add<Output = T> + Sub<Output = T>,
    M: Fn(T, T) -> T,
    E: Fn(T) -> T,
    N: Fn(T) -> T,
    B: Fn(T) -> u32,
    G: Fn(T, T) -> bool,
    L: Fn(T, T) -> bool,
    F: Fn(u32) -> T,
>(math: LogitMath<T, M, E, N, B, G, L, F>, logits: Seq<T>, p: Seq<T>) -> bool {
    exists|l: T| #[trigger] is_log_sum(math, logits, l) && are_below(logits, l, p)
}

/// Numerically stable log-softmax.
pub fn log_softmax<
    T: Copy + Add<Output = T> + Sub<Output = T>,
    M: Fn(T, T) -> T,
    E: Fn(T) -> T,
    N: Fn(T) -> T,
    B: Fn(T) -> u32,
    G: Fn(T, T) -> bool,
    L: Fn(T, T) -> bool,
    F: Fn(u32) -> T,
>(math: &LogitMath<T, M, E, N, B, G, L, F>, logits: &[T]) -> (p: Vec<T>)
    requires
        math.total(),
        crate::num::total_add::<T>(),
        crate::num::total_sub::<T>(),
    ensures
        exists|l: T| #[trigger] is_log_sum(*math, logits@, l) && are_below(logits@, l, p@),
        is_log_softmax(*math, logits@, p@),
{
    let l: T = log_sum(math, logits);
    let mut p: Vec<T> = Vec::with_capacity(logits.len());
    let mut i: usize = 0;
    while i < logits.len()
        invariant
            i <= logits@.len(),
            crate::num::total_sub::<T>(),
            p@.len() == i,
            forall|j: int|
                0 <= j < i ==> crate::num::is_difference(logits@[j], l, #[trigger] p@[j]),
        decreases logits@.len() - i,
    {
        p.push(logits[i] - l);
        i = i + 1;
    }
    p
}

/// The logit of a token; a token without a logit has the lowest number.
pub open spec fn logit_of<T>(logits: Seq<T>, token: u32, lowest: T) -> T {
    if token < logits.len() {
        logits[token as int]
    } else {
        lowest
    }
}

/// `p` is the log-probability of a token given logits.
pub open spec fn is_token_log_prob<
    T: Add<Output = T> + Sub<Output = T>,
    M: Fn(T, T) -> T,
    E: Fn(T) -> T,
    N: Fn(T) -> T,
    B: Fn(T) -> u32,
    G: Fn(T, T) -> bool,
    L: Fn(T, T) -> bool,
    F: Fn(u32) -> T,
>(math: LogitMath<T, M, E, N, B, G, L, F>, logits: Seq<T>, token: u32, p: T) -> bool {
    exists|l: T| #[trigger]
        is_log_sum(math, logits, l) && crate::num::is_difference(
            logit_of(logits, token, math.lowest),
            l,
            p,
        )
}

/// The log-probability of a specific token given logits.
pub fn token_log_prob<
    T: Copy + Add<Output = T> + Sub<Output = T>,
    M: Fn(T, T) -> T,
    E: Fn(T) -> T,
    N: Fn(T) -> T,
    B: Fn(T) -> u32,
    G: Fn(T, T) -> bool,
    L: Fn(T, T) -> bool,
    F: Fn(u32) -> T,
>(math: &LogitMath<T, M, E, N, B, G, L, F>, logits: &[T], token: u32) -> (p: T)
    requires
        math.total(),
        crate::num::total_add::<T>(),
        crate::num::total_sub::<T>(),
    ensures
        is_token_log_prob(*math, logits@, token, p),
{
    let l: T = log_sum(math, logits);
    let x: T = if (token as usize) < logits.len() {
        logits[token as usize]
    } else {
        math.lowest
    };
    x - l
}

/// The token of the largest logit with its log-probability (numerically stable).
pub fn argmax_with_log_prob<
    T: Copy + Add<Output = T> + Sub<Output = T>,
    M: Fn(T, T) -> T,
    E: Fn(T) -> T,
    N: Fn(T) -> T,
    B: Fn(T) -> u32,
    G: Fn(T, T) -> bool,
    L: Fn(T, T) -> bool,
    F: Fn(u32) -> T,
>(math: &LogitMath<T, M, E, N, B, G, L, F>, logits: &[T]) -> (r: (u32, T))
    requires
        math.total(),
        crate::num::total_add::<T>(),
        crate::num::total_sub::<T>(),
    ensures
        exists|bits: Seq<u32>| #[trigger]
            crate::bits::are_bits(math.to_bits, logits@, bits) && r.0 == crate::bits::leader(
                bits,
            ) as u32,
        is_token_log_prob(*math, logits@, r.0, r.1),
{
    let bits: Vec<u32> = crate::bits::bits_of(&math.to_bits, logits);
    let token: u32 = crate::decode_utils::argmax(bits.as_slice());
    (token, token_log_prob(math, logits, token))
}

/// The length that a score is normalized by: at least one.
pub open spec fn counted_length(tokens_len: usize) -> usize {
    if tokens_len == 0 {
        1
    } else {
        tokens_len
    }
}

/// Bit pattern of the exponent that lengths are raised to, 0.6.
pub const LENGTH_EXPONENT_BITS: u32 = 0x3F19_999A;

/// `r` is a score divided by the power `d` of the length: `n` is the number of the length, `e` the
/// exponent.
pub open spec fn normalized_by<
    T: Div<Output = T>,
    F: Fn(u32) -> T,
    C: Fn(usize) -> T,
    P: Fn(T, T) -> T,
>(from_bits: F, count: C, pow: P, tokens_len: usize, score: T, n: T, e: T, d: T, r: T) -> bool {
    &&& call_ensures(count, (counted_length(tokens_len),), n)
    &&& call_ensures(from_bits, (LENGTH_EXPONENT_BITS,), e)
    &&& call_ensures(pow, (n, e), d)
    &&& crate::num::is_quotient(score, d, r)
}

/// `r` is a score divided by the length to the power of 0.6.
pub open spec fn is_normalized<
    T: Div<Output = T>,
    F: Fn(u32) -> T,
    C: Fn(usize) -> T,
    P: Fn(T, T) -> T,
>(from_bits: F, count: C, pow: P, tokens_len: usize, score: T, r: T) -> bool {
    exists|n: T, e: T, d: T| #[trigger]
        normalized_by(from_bits, count, pow, tokens_len, score, n, e, d, r)
}

/// A length-normalised score for beam ranking.
pub fn normalized_score<
    T: Copy + Div<Output = T>,
    F: Fn(u32) -> T,
    C: Fn(usize) -> T,
    P: Fn(T, T) -> T,
>(tokens_len: usize, score: T, from_bits: &F, count: &C, pow: &P) -> (r: T)
    requires
        forall|b: u32| #[trigger] call_requires(*from_bits, (b,)),
        forall|n: usize| #[trigger] call_requires(*count, (n,)),
        forall|a: T, b: T| #[trigger] call_requires(*pow, (a, b)),
        crate::num::total_div::<T>(),
    ensures
        is_normalized(*from_bits, *count, *pow, tokens_len, score, r),
{
    let len: usize = if tokens_len == 0 {
        1
    } else {
        tokens_len
    };
    let n: T = count(len);
    let e: T = from_bits(LENGTH_EXPONENT_BITS);
    let d: T = pow(n, e);
    let r: T = score / d;
    assert(normalized_by(*from_bits, *count, *pow, tokens_len, score, n, e, d, r));
    r
}

/// `w` is the weight of the logit `x`: the exponential of `x - top`, divided by the temperature.
pub open spec fn is_weight<T: Sub<Output = T> + Div<Output = T>, E: Fn(T) -> T>(
    exp: E,
    x: T,
    top: T,
    temperature: T,
    w: T,
) -> bool {
    exists|d: T, q: T| #[trigger]
        crate::num::is_difference(x, top, d) && #[trigger] crate::num::is_quotient(
            d,
            temperature,
            q,
        ) && call_ensures(exp, (q,), w)
}

/// `w` holds the weights of the logits, `bits` their bit patterns.
pub open spec fn are_weights<
    T: Sub<Output = T> + Div<Output = T>,
    E: Fn(T) -> T,
    B: Fn(T) -> u32,
>(
    exp: E,
    to_bits: B,
    logits: Seq<T>,
    top: T,
    temperature: T,
    w: Seq<T>,
    bits: Seq<u32>,
) -> bool {
    &&& w.len() == logits.len()
    &&& bits.len() == logits.len()
    &&& forall|i: int|
        0 <= i < w.len() ==> is_weight(exp, logits[i], top, temperature, #[trigger] w[i])
    &&& forall|i: int| 0 <= i < w.len() ==> call_ensures(to_bits, (w[i],), #[trigger] bits[i])
}

/// The number of candidates that `top_k` leaves of `n`; 0 leaves all.
pub open spec fn top_k_count(top_k: usize, n: nat) -> nat {
    if 0 < top_k < n {
        top_k as nat
    } else {
        n
    }
}

/// `p` holds the weights at the first places of `order`.
pub open spec fn are_ordered<T>(w: Seq<T>, order: Seq<usize>, p: Seq<T>) -> bool {
    &&& p.len() <= order.len()
    &&& forall|i: int| 0 <= i < p.len() ==> #[trigger] p[i] == w[order[i] as int]
}

/// `b` is `a` plus the share of `p` in `total`.
pub open spec fn adds_share<T: Add<Output = T> + Div<Output = T>>(
    a: T,
    p: T,
    total: T,
    b: T,
) -> bool {
    exists|q: T| #[trigger] crate::num::is_quotient(p, total, q) && crate::num::is_sum(a, q, b)
}

/// `c` holds the cumulative shares of `p` in `total`, from nothing on.
pub open spec fn are_shares<T: Add<Output = T> + Div<Output = T>>(
    zero: T,
    p: Seq<T>,
    total: T,
    c: Seq<T>,
) -> bool {
    &&& c.len() == p.len() + 1
    &&& c[0] == zero
    &&& forall|i: int| 0 <= i < p.len() ==> adds_share(c[i], #[trigger] p[i], total, c[i + 1])
}

/// `cut` is the number of candidates in the nucleus: the first ones whose cumulative share
/// reaches `top_p`, or all.
pub open spec fn is_nucleus<T: Add<Output = T> + Div<Output = T>, G: Fn(T, T) -> bool>(
    at_least: G,
    zero: T,
    p: Seq<T>,
    top_p: T,
    total: T,
    cut: int,
) -> bool {
    &&& 0 <= cut <= p.len()
    &&& p.len() > 0 ==> cut > 0
    &&& exists|c: Seq<T>| #[trigger]
        are_shares(zero, p.take(cut), total, c) && (forall|i: int|
            0 < i < cut ==> call_ensures(at_least, (#[trigger] c[i], top_p), false)) && (cut
            == p.len() || call_ensures(at_least, (c[cut], top_p), true))
}

/// The number of candidates in the nucleus.
fn nucleus<T: Copy + Add<Output = T> + Div<Output = T>, G: Fn(T, T) -> bool>(
    at_least: &G,
    zero: T,
    p: &Vec<T>,
    top_p: T,
    total: T,
) -> (cut: usize)
    requires
        forall|a: T, b: T| #[trigger] call_requires(*at_least, (a, b)),
        crate::num::total_add::<T>(),
        crate::num::total_div::<T>(),
    ensures
        is_nucleus(*at_least, zero, p@, top_p, total, cut as int),
{
    let mut cumulative: T = zero;
    let ghost mut c: Seq<T> = seq![zero];
    let mut i: usize = 0;
    while i < p.len()
        invariant
            i <= p@.len(),
            forall|a: T, b: T| #[trigger] call_requires(*at_least, (a, b)),
            crate::num::total_add::<T>(),
            crate::num::total_div::<T>(),
            c.len() == i + 1,
            c[0] == zero,
            c[i as int] == cumulative,
            forall|j: int| 0 <= j < i ==> adds_share(c[j], #[trigger] p@[j], total, c[j + 1]),
            forall|j: int| 0 < j <= i ==> call_ensures(*at_least, (#[trigger] c[j], top_p), false),
        decreases p@.len() - i,
    {
        let share: T = p[i] / total;
        let ghost before = cumulative;
        cumulative = cumulative + share;
        assert(crate::num::is_quotient(p@[i as int], total, share));
        assert(adds_share(before, p@[i as int], total, cumulative));
        proof {
            c = c.push(cumulative);
        }
        let enough: bool = at_least(cumulative, top_p);
        i = i + 1;
        if enough {
            assert forall|j: int| 0 <= j < i implies adds_share(
                c[j],
                #[trigger] p@.take(i as int)[j],
                total,
                c[j + 1],
            ) by {
                assert(p@.take(i as int)[j] == p@[j]);
            }
            assert(are_shares(zero, p@.take(i as int), total, c));
            return i;
        }
    }
    assert(p@.take(i as int) =~= p@);
    assert(are_shares(zero, p@, total, c));
    i
}

/// `k` is the place where a drawn number `r` is spent when the weights `p` are taken from it one
/// by one, or the last place.
pub open spec fn is_draw<T: Sub<Output = T>, G: Fn(T, T) -> bool>(
    at_least: G,
    zero: T,
    p: Seq<T>,
    r: T,
    k: int,
) -> bool {
    &&& 0 <= k < p.len()
    &&& exists|rest: Seq<T>| #[trigger]
        are_rests(p, r, k, rest) && (forall|i: int|
            0 < i <= k ==> call_ensures(at_least, (zero, #[trigger] rest[i]), false)) && (k == p.len() - 1
            || call_ensures(at_least, (zero, rest[k + 1]), true))
}

/// `rest` holds what is left of `r` when the weights up to place `k` are taken from it.
pub open spec fn are_rests<T: Sub<Output = T>>(p: Seq<T>, r: T, k: int, rest: Seq<T>) -> bool {
    &&& rest.len() == k + 2
    &&& rest[0] == r
    &&& forall|i: int|
        0 <= i <= k ==> crate::num::is_difference(rest[i], #[trigger] p[i], rest[i + 1])
}

/// The place where a drawn number is spent.
fn draw<T: Copy + Sub<Output = T>, G: Fn(T, T) -> bool>(
    at_least: &G,
    zero: T,
    p: &Vec<T>,
    r: T,
) -> (k: usize)
    requires
        p@.len() > 0,
        forall|a: T, b: T| #[trigger] call_requires(*at_least, (a, b)),
        crate::num::total_sub::<T>(),
    ensures
        is_draw(*at_least, zero, p@, r, k as int),
{
    let mut left: T = r;
    let ghost mut rest: Seq<T> = seq![r];
    let mut i: usize = 0;
    while i < p.len()
        invariant
            i <= p@.len(),
            p@.len() > 0,
            forall|a: T, b: T| #[trigger] call_requires(*at_least, (a, b)),
            crate::num::total_sub::<T>(),
            rest.len() == i + 1,
            rest[0] == r,
            rest[i as int] == left,
            forall|j: int|
                0 <= j < i ==> crate::num::is_difference(rest[j], #[trigger] p@[j], rest[j + 1]),
            forall|j: int| 0 < j <= i ==> call_ensures(*at_least, (zero, #[trigger] rest[j]), false),
        decreases p@.len() - i,
    {
        left = left - p[i];
        proof {
            rest = rest.push(left);
        }
        let done: bool = at_least(zero, left);
        if done {
            assert(are_rests(p@, r, i as int, rest));
            return i;
        }
        i = i + 1;
    }
    assert(are_rests(p@, r, i - 1, rest));
    i - 1
}

/// `w` holds the weights of the logits at the temperature, and `order` ranks them.
pub open spec fn are_ranked<
    T: Add<Output = T> + Sub<Output = T> + Mul<Output = T> + Div<Output = T>,
    M: Fn(T, T) -> T,
    E: Fn(T) -> T,
    N: Fn(T) -> T,
    B: Fn(T) -> u32,
    G: Fn(T, T) -> bool,
    L: Fn(T, T) -> bool,
    F: Fn(u32) -> T,
>(
    math: LogitMath<T, M, E, N, B, G, L, F>,
    logits: Seq<T>,
    temperature: T,
    order: Seq<usize>,
    w: Seq<T>,
) -> bool {
    exists|top: T, t: T, bits: Seq<u32>| #[trigger]
        are_weights(math.exp, math.to_bits, logits, top, t, w, bits) && call_ensures(
            math.larger,
            (temperature, math.floor),
            t,
        ) && crate::num::is_top(math.larger, math.lowest, logits, top)
            && crate::ranking::is_ranking(bits, order)
}

/// `cut` is the number of the ordered weights `p` that `top_p` leaves: the nucleus for less than
/// one, else all.
pub open spec fn is_cut<
    T: Add<Output = T> + Sub<Output = T> + Mul<Output = T> + Div<Output = T>,
    M: Fn(T, T) -> T,
    E: Fn(T) -> T,
    N: Fn(T) -> T,
    B: Fn(T) -> u32,
    G: Fn(T, T) -> bool,
    L: Fn(T, T) -> bool,
    F: Fn(u32) -> T,
>(math: LogitMath<T, M, E, N, B, G, L, F>, p: Seq<T>, top_p: T, cut: int) -> bool {
    ||| call_ensures(math.below, (top_p, math.one), false) && cut == p.len()
    ||| call_ensures(math.below, (top_p, math.one), true) && exists|all: T| #[trigger]
        crate::num::sum_of(math.zero, p, all) && is_nucleus(
            math.at_least,
            math.zero,
            p,
            top_p,
            all,
            cut,
        )
}

/// How a token was sampled: from the ordered weights `p`, of which `top_p` leaves `cut`; at
/// `place` the drawn number is spent.
pub open spec fn sampled_by<
    T: Add<Output = T> + Sub<Output = T> + Mul<Output = T> + Div<Output = T>,
    M: Fn(T, T) -> T,
    E: Fn(T) -> T,
    N: Fn(T) -> T,
    B: Fn(T) -> u32,
    G: Fn(T, T) -> bool,
    L: Fn(T, T) -> bool,
    F: Fn(u32) -> T,
>(
    math: LogitMath<T, M, E, N, B, G, L, F>,
    logits: Seq<T>,
    temperature: T,
    top_k: usize,
    top_p: T,
    uniform: T,
    order: Seq<usize>,
    p: Seq<T>,
    place: int,
) -> bool {
    &&& exists|w: Seq<T>| #[trigger]
        are_ranked(math, logits, temperature, order, w) && are_ordered(w, order, p)
    &&& order.len() == logits.len()
    &&& p.len() == top_k_count(top_k, logits.len())
    &&& exists|cut: int, r: T| #[trigger]
        is_draw(math.at_least, math.zero, p.take(cut), r, place) && is_cut(math, p, top_p, cut)
            && exists|total: T| #[trigger]
            crate::num::sum_of(math.zero, p.take(cut), total) && crate::num::is_product(
                uniform,
                total,
                r,
            )
}

/// `token` is sampled from the logits: weights in descending order, cut to the `top_k` best and to
/// the nucleus `top_p`, and the place where `uniform` times their total is spent. Without logits
/// it is 0.
pub open spec fn is_sample<
    T: Add<Output = T> + Sub<Output = T> + Mul<Output = T> + Div<Output = T>,
    M: Fn(T, T) -> T,
    E: Fn(T) -> T,
    N: Fn(T) -> T,
    B: Fn(T) -> u32,
    G: Fn(T, T) -> bool,
    L: Fn(T, T) -> bool,
    F: Fn(u32) -> T,
>(
    math: LogitMath<T, M, E, N, B, G, L, F>,
    logits: Seq<T>,
    temperature: T,
    top_k: usize,
    top_p: T,
    uniform: T,
    token: u32,
) -> bool {
    if logits.len() == 0 {
        token == 0
    } else {
        exists|order: Seq<usize>, p: Seq<T>, place: int| #[trigger]
            sampled_by(math, logits, temperature, top_k, top_p, uniform, order, p, place) && 0
                <= place < order.len() && token == order[place] as u32
    }
}

/// The weights of the logits at a temperature, and the order of their places.
fn rank_weights<
    T: Copy + Add<Output = T> + Sub<Output = T> + Mul<Output = T> + Div<Output = T>,
    M: Fn(T, T) -> T,
    E: Fn(T) -> T,
    N: Fn(T) -> T,
    B: Fn(T) -> u32,
    G: Fn(T, T) -> bool,
    L: Fn(T, T) -> bool,
    F: Fn(u32) -> T,
>(
    math: &LogitMath<T, M, E, N, B, G, L, F>,
    logits: &[T],
    temperature: T,
) -> (r: (Vec<usize>, Vec<T>))
    requires
        math.total(),
        crate::num::total_sub::<T>(),
        crate::num::total_div::<T>(),
    ensures
        are_ranked(*math, logits@, temperature, r.0@, r.1@),
        r.0@.len() == logits@.len(),
        r.1@.len() == logits@.len(),
        forall|i: int| 0 <= i < r.0@.len() ==> #[trigger] r.0@[i] < logits@.len(),
{
    let t: T = (math.larger)(temperature, math.floor);
    let top: T = crate::num::find_top(&math.larger, math.lowest, logits);
    let mut w: Vec<T> = Vec::with_capacity(logits.len());
    let mut bits: Vec<u32> = Vec::with_capacity(logits.len());
    let mut i: usize = 0;
    while i < logits.len()
        invariant
            i <= logits@.len(),
            math.total(),
            crate::num::total_sub::<T>(),
            crate::num::total_div::<T>(),
            w@.len() == i,
            bits@.len() == i,
            forall|j: int|
                0 <= j < i ==> is_weight(math.exp, logits@[j], top, t, #[trigger] w@[j]),
            forall|j: int| 0 <= j < i ==> call_ensures(math.to_bits, (w@[j],), #[trigger] bits@[j]),
        decreases logits@.len() - i,
    {
        let d: T = logits[i] - top;
        let q: T = d / t;
        let x: T = (math.exp)(q);
        assert(crate::num::is_difference(logits@[i as int], top, d));
        assert(crate::num::is_quotient(d, t, q));
        let b: u32 = (math.to_bits)(x);
        w.push(x);
        bits.push(b);
        i = i + 1;
    }
    let order: Vec<usize> = crate::ranking::rank_places(bits.as_slice());
    assert(are_weights(math.exp, math.to_bits, logits@, top, t, w@, bits@));
    (order, w)
}

/// Sample a token from logits with temperature scaling, top-k and top-p filtering. `uniform` is a
/// random number between 0 and 1.
///
/// When `temperature` is close to 0 this degenerates toward the token of the largest logit.
pub fn sample_token<
    T: Copy + Add<Output = T> + Sub<Output = T> + Mul<Output = T> + Div<Output = T>,
    M: Fn(T, T) -> T,
    E: Fn(T) -> T,
    N: Fn(T) -> T,
    B: Fn(T) -> u32,
    G: Fn(T, T) -> bool,
    L: Fn(T, T) -> bool,
    F: Fn(u32) -> T,
>(
    math: &LogitMath<T, M, E, N, B, G, L, F>,
    logits: &[T],
    temperature: T,
    top_k: usize,
    top_p: T,
    uniform: T,
) -> (token: u32)
    requires
        math.total(),
        crate::num::total_add::<T>(),
        crate::num::total_sub::<T>(),
        crate::num::total_mul::<T>(),
        crate::num::total_div::<T>(),
    ensures
        is_sample(*math, logits@, temperature, top_k, top_p, uniform, token),
{
    if logits.len() == 0 {
        return 0;
    }
    let (order, w) = rank_weights(math, logits, temperature);
    let n: usize = if top_k > 0 && top_k < order.len() {
        top_k
    } else {
        order.len()
    };
    let mut p: Vec<T> = Vec::with_capacity(n);
    let mut k: usize = 0;
    while k < n
        invariant
            k <= n <= order@.len(),
            w@.len() == order@.len(),
            forall|i: int| 0 <= i < order@.len() ==> #[trigger] order@[i] < w@.len(),
            p@.len() == k,
            forall|j: int| 0 <= j < k ==> #[trigger] p@[j] == w@[order@[j] as int],
        decreases n - k,
    {
        p.push(w[order[k]]);
        k = k + 1;
    }
    assert(are_ordered(w@, order@, p@));
    let ghost full = p@;
    let restricted: bool = (math.below)(top_p, math.one);
    let cut: usize = if restricted {
        let all: T = crate::num::sum(p.as_slice(), math.zero);
        nucleus(&math.at_least, math.zero, &p, top_p, all)
    } else {
        p.len()
    };
    assert(is_cut(*math, full, top_p, cut as int));
    p.truncate(cut);
    assert(p@ =~= full.take(cut as int));
    let total: T = crate::num::sum(p.as_slice(), math.zero);
    let r: T = uniform * total;
    let place: usize = draw(&math.at_least, math.zero, &p, r);
    proof {
        assert(crate::num::sum_of(math.zero, full.take(cut as int), total));
        assert(is_draw(math.at_least, math.zero, full.take(cut as int), r, place as int));
        assert(sampled_by(
            *math,
            logits@,
            temperature,
            top_k,
            top_p,
            uniform,
            order@,
            full,
            place as int,
        ));
    }
    order[place] as u32
}

/// A sampled token stands among the candidates that `top_k` leaves, and has a logit.
pub proof fn law_sample_is_candidate<
    T: Add<Output = T> + Sub<Output = T> + Mul<Output = T> + Div<Output = T>,
    M: Fn(T, T) -> T,
    E: Fn(T) -> T,
    N: Fn(T) -> T,
    B: Fn(T) -> u32,
    G: Fn(T, T) -> bool,
    L: Fn(T, T) -> bool,
    F: Fn(u32) -> T,
>(
    math: LogitMath<T, M, E, N, B, G, L, F>,
    logits: Seq<T>,
    temperature: T,
    top_k: usize,
    top_p: T,
    uniform: T,
    order: Seq<usize>,
    p: Seq<T>,
    place: int,
)
    requires
        sampled_by(math, logits, temperature, top_k, top_p, uniform, order, p, place),
    ensures
        0 <= place < top_k_count(top_k, logits.len()),
        order[place] < logits.len(),
{
    let w = choose|w: Seq<T>| #[trigger]
        are_ranked(math, logits, temperature, order, w) && are_ordered(w, order, p);
    assert(are_ranked(math, logits, temperature, order, w));
    assert(p.len() <= order.len());
}

} // verus!
