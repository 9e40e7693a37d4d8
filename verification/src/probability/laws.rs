//! What log-probabilities and samples are worth in exact arithmetic.

use crate::exact;
use crate::probability::{self, LogitMath};
use core::ops::{Add, Div, Mul, Sub};
use vstd::prelude::*;

verus! {

/// `v` carries the operators, functions and comparisons over to those of the real numbers; `exp` is
/// the exponential function there.
pub open spec fn is_exact<
    T: Add<Output = T> + Sub<Output = T> + Mul<Output = T> + Div<Output = T>,
    M: Fn(T, T) -> T,
    E: Fn(T) -> T,
    N: Fn(T) -> T,
    B: Fn(T) -> u32,
    G: Fn(T, T) -> bool,
    L: Fn(T, T) -> bool,
    F: Fn(u32) -> T,
>(
    math: LogitMath<T, M, E, N, B, G, L, F>,
    v: spec_fn(T) -> real,
    exp: spec_fn(real) -> real,
) -> bool {
    &&& exact::adds(v)
    &&& exact::subtracts(v)
    &&& exact::multiplies(v)
    &&& exact::divides(v)
    &&& v(math.zero) == 0real
    &&& v(math.one) == 1real
    &&& forall|a: T, r: T| #[trigger] call_ensures(math.exp, (a,), r) ==> v(r) == exp(v(a))
    &&& forall|a: T, r: T| #[trigger]
        call_ensures(math.ln, (a,), r) && v(a) > 0real ==> exp(v(r)) == v(a)
    &&& forall|a: T, b: T, r: T| #[trigger]
        call_ensures(math.larger, (a, b), r) ==> v(r) == if v(a) >= v(b) {
            v(a)
        } else {
            v(b)
        }
    &&& forall|a: T, b: T, r: bool| #[trigger]
        call_ensures(math.at_least, (a, b), r) ==> r == (v(a) >= v(b))
    &&& forall|a: T, b: T, r: bool| #[trigger]
        call_ensures(math.below, (a, b), r) ==> r == (v(a) < v(b))
    &&& forall|a: T, b: T, x: u32, y: u32|
        #![trigger call_ensures(math.to_bits, (a,), x), call_ensures(math.to_bits, (b,), y)]
        call_ensures(math.to_bits, (a,), x) && call_ensures(math.to_bits, (b,), y) ==> (
        crate::bits::rank(x) < crate::bits::rank(y) <==> v(a) < v(b))
    &&& forall|x: real| #[trigger] exp(x) > 0real
    &&& forall|x: real, y: real| #[trigger] exp(x + y) == exp(x) * exp(y)
}

/// The logarithm of a sum of exponentials is what its name says: its exponential is the sum.
proof fn lemma_log_sum<
    T: Add<Output = T> + Sub<Output = T> + Mul<Output = T> + Div<Output = T>,
    M: Fn(T, T) -> T,
    E: Fn(T) -> T,
    N: Fn(T) -> T,
    B: Fn(T) -> u32,
    G: Fn(T, T) -> bool,
    L: Fn(T, T) -> bool,
    F: Fn(u32) -> T,
>(
    math: LogitMath<T, M, E, N, B, G, L, F>,
    v: spec_fn(T) -> real,
    exp: spec_fn(real) -> real,
    x: Seq<T>,
    r: T,
)
    requires
        is_exact(math, v, exp),
        probability::is_log_sum(math, x, r),
        x.len() > 0,
    ensures
        exp(v(r)) == exact::total(x.len(), |i: int| exp(v(x[i]))),
{
    let (top, e, s, l) = choose|top: T, e: Seq<T>, s: T, l: T| #[trigger]
        probability::log_sum_by(math, x, top, e, s, l, r);
    let f = |i: int| v(e[i]);
    let g = |i: int| exp(v(x[i]));
    let t = exp(v(top));
    let h = |i: int| f(i) * t;
    assert forall|i: int| 0 <= i < x.len() implies #[trigger] h(i) == g(i) && f(i) > 0real by {
        assert(probability::is_exp_of_difference(math.exp, x[i], top, e[i]));
        let d = choose|d: T| #[trigger]
            crate::num::is_difference(x[i], top, d) && call_ensures(math.exp, (d,), e[i]);
        assert(v(d) + v(top) == v(x[i]));
        assert(exp(v(d) + v(top)) == exp(v(d)) * exp(v(top)));
        assert(exp(v(d)) > 0real);
    }
    assert forall|i: int| 0 <= i < x.len() implies #[trigger] f(i) > 0real by {
        assert(h(i) == g(i));
    }
    exact::lemma_total_same(x.len(), h, g);
    exact::lemma_total_scaled(x.len(), f, t);
    exact::lemma_total_positive(x.len(), f);
    exact::lemma_sum_value(v, math.zero, e, s);
    assert(exp(v(l)) == v(s));
    assert(exp(v(top) + v(l)) == exp(v(top)) * exp(v(l)));
    let a = v(s);
    assert(t * a == a * t) by (nonlinear_arith);
}

/// Log-probabilities are those of a distribution: their exponentials add up to one, and they differ
/// from each other as the logits do.
pub proof fn law_log_softmax_is_distribution<
    T: Add<Output = T> + Sub<Output = T> + Mul<Output = T> + Div<Output = T>,
    M: Fn(T, T) -> T,
    E: Fn(T) -> T,
    N: Fn(T) -> T,
    B: Fn(T) -> u32,
    G: Fn(T, T) -> bool,
    L: Fn(T, T) -> bool,
    F: Fn(u32) -> T,
>(
    math: LogitMath<T, M, E, N, B, G, L, F>,
    v: spec_fn(T) -> real,
    exp: spec_fn(real) -> real,
    logits: Seq<T>,
    p: Seq<T>,
)
    requires
        is_exact(math, v, exp),
        probability::is_log_softmax(math, logits, p),
        logits.len() > 0,
    ensures
        p.len() == logits.len(),
        exact::total(p.len(), |i: int| exp(v(p[i]))) == 1real,
        forall|i: int, j: int|
            0 <= i < p.len() && 0 <= j < p.len() ==> v(#[trigger] p[i]) - v(#[trigger] p[j]) == v(
                logits[i],
            ) - v(logits[j]),
{
    let l = choose|l: T| #[trigger]
        probability::is_log_sum(math, logits, l) && probability::are_below(logits, l, p);
    lemma_log_sum(math, v, exp, logits, l);
    let z = exp(v(l));
    assert(z > 0real);
    let f = |i: int| exp(v(p[i]));
    let g = |i: int| exp(v(logits[i]));
    let h = |i: int| f(i) * z;
    assert forall|i: int| 0 <= i < p.len() implies #[trigger] h(i) == g(i) by {
        assert(crate::num::is_difference(logits[i], l, p[i]));
        assert(v(p[i]) + v(l) == v(logits[i]));
        assert(exp(v(p[i]) + v(l)) == exp(v(p[i])) * exp(v(l)));
    }
    exact::lemma_total_same(p.len(), h, g);
    exact::lemma_total_scaled(p.len(), f, z);
    let all = exact::total(p.len(), f);
    assert(all * z == z);
    assert(all == 1real) by (nonlinear_arith)
        requires
            all * z == z,
            z > 0real,
    ;
    assert forall|i: int, j: int| 0 <= i < p.len() && 0 <= j < p.len() implies v(#[trigger] p[i])
        - v(#[trigger] p[j]) == v(logits[i]) - v(logits[j]) by {
        assert(crate::num::is_difference(logits[i], l, p[i]));
        assert(crate::num::is_difference(logits[j], l, p[j]));
    }
}

/// The log-probability of a token is that of its share: its exponential times the sum of the
/// exponentials of all logits is the exponential of the token's logit.
pub proof fn law_token_log_prob_is_share<
    T: Add<Output = T> + Sub<Output = T> + Mul<Output = T> + Div<Output = T>,
    M: Fn(T, T) -> T,
    E: Fn(T) -> T,
    N: Fn(T) -> T,
    B: Fn(T) -> u32,
    G: Fn(T, T) -> bool,
    L: Fn(T, T) -> bool,
    F: Fn(u32) -> T,
>(
    math: LogitMath<T, M, E, N, B, G, L, F>,
    v: spec_fn(T) -> real,
    exp: spec_fn(real) -> real,
    logits: Seq<T>,
    token: u32,
    p: T,
)
    requires
        is_exact(math, v, exp),
        probability::is_token_log_prob(math, logits, token, p),
        token < logits.len(),
    ensures
        exp(v(p)) * exact::total(logits.len(), |i: int| exp(v(logits[i]))) == exp(
            v(logits[token as int]),
        ),
{
    let l = choose|l: T| #[trigger]
        probability::is_log_sum(math, logits, l) && crate::num::is_difference(
            probability::logit_of(logits, token, math.lowest),
            l,
            p,
        );
    lemma_log_sum(math, v, exp, logits, l);
    assert(v(p) + v(l) == v(logits[token as int]));
    assert(exp(v(p) + v(l)) == exp(v(p)) * exp(v(l)));
}

/// A normalized score times the power of the length is the score; a length of zero counts as one.
/// `pow` is the power function of the real numbers, `exponent` what the bit pattern of 0.6 stands
/// for.
pub proof fn law_normalized_score_undoes_length<
    T: Div<Output = T>,
    F: Fn(u32) -> T,
    C: Fn(usize) -> T,
    P: Fn(T, T) -> T,
>(
    from_bits: F,
    count: C,
    power: P,
    v: spec_fn(T) -> real,
    pow: spec_fn(real, real) -> real,
    exponent: real,
    tokens_len: usize,
    score: T,
    r: T,
)
    requires
        exact::divides(v),
        forall|x: T| #[trigger] call_ensures(from_bits, (0x3F19_999Au32,), x) ==> v(x) == exponent,
        forall|n: usize, x: T| #[trigger]
            call_ensures(count, (n,), x) ==> v(x) == (n as int) as real,
        forall|a: T, b: T, x: T| #[trigger]
            call_ensures(power, (a, b), x) ==> v(x) == pow(v(a), v(b)),
        forall|a: real, b: real| a > 0real ==> #[trigger] pow(a, b) > 0real,
        probability::is_normalized(from_bits, count, power, tokens_len, score, r),
    ensures
        tokens_len > 0 ==> v(r) * pow((tokens_len as int) as real, exponent) == v(score),
        tokens_len == 0 ==> v(r) * pow(1real, exponent) == v(score),
{
    let (n, e, d) = choose|n: T, e: T, d: T| #[trigger]
        probability::normalized_by(from_bits, count, power, tokens_len, score, n, e, d, r);
    let x = v(d);
    let s = v(score);
    let y = v(r);
    assert(v(n) > 0real);
    assert(x > 0real);
    assert(y * x == s) by (nonlinear_arith)
        requires
            x > 0real,
            y == s / x,
    ;
}

/// The weights of the first `m` tokens in an order.
pub open spec fn weight_of_first(
    weight: spec_fn(int) -> real,
    order: Seq<usize>,
    m: int,
) -> real {
    exact::total(m as nat, |a: int| weight(order[a] as int))
}

/// Whether `token` is drawn from `n` tokens by weight. In the order of falling weights, `top_k` leaves
/// the first ones (all, if it is zero), and `top_p`, if it is less than one, those that make up its
/// share of their weight. Of the `cut` tokens that are left, it is the one where the weights that stand
/// before it fall short of `uniform` times the weight of all that are left, and those up to and
/// including it do not.
pub open spec fn is_drawn(
    n: int,
    weight: spec_fn(int) -> real,
    top_k: usize,
    top_p: real,
    uniform: real,
    token: u32,
) -> bool {
    exists|order: Seq<usize>, cut: int, place: int|
        #![trigger order[place], order.take(cut)]
        {
            let count = if 0 < top_k < n {
                top_k as int
            } else {
                n
            };
            &&& order.len() == n
            &&& forall|k: usize| k < n ==> #[trigger] order.contains(k)
            &&& forall|a: int, b: int|
                0 <= a < b < n ==> #[trigger] order[a] != #[trigger] order[b]
            &&& forall|a: int, b: int|
                #![trigger order[a], order[b]]
                0 <= a < b < n ==> weight(order[a] as int) >= weight(order[b] as int)
            &&& 0 <= place < cut <= count
            &&& token == order[place]
            &&& top_p >= 1real ==> cut == count
            &&& top_p < 1real && cut < count ==> weight_of_first(weight, order, cut) >= top_p
                * weight_of_first(weight, order, count)
            &&& top_p < 1real && cut > 1 ==> weight_of_first(weight, order, cut - 1) < top_p
                * weight_of_first(weight, order, count)
            &&& place > 0 ==> weight_of_first(weight, order, place) < uniform * weight_of_first(
                weight,
                order,
                cut,
            )
            &&& place < cut - 1 ==> uniform * weight_of_first(weight, order, cut)
                <= weight_of_first(weight, order, place + 1)
        }
}

/// The values of running remainders.
proof fn lemma_rests<T: Sub<Output = T>>(
    v: spec_fn(T) -> real,
    p: Seq<T>,
    r: T,
    k: int,
    rest: Seq<T>,
    i: nat,
)
    requires
        exact::subtracts(v),
        probability::are_rests(p, r, k, rest),
        i <= k + 1,
    ensures
        v(rest[i as int]) == v(r) - exact::total(i, |j: int| v(p[j])),
    decreases i,
{
    if i > 0 {
        lemma_rests(v, p, r, k, rest, (i - 1) as nat);
        assert(crate::num::is_difference(rest[i - 1], p[i - 1], rest[i - 1 + 1]));
    }
}

/// The values of cumulative shares.
proof fn lemma_shares<T: Add<Output = T> + Div<Output = T>>(
    v: spec_fn(T) -> real,
    zero: T,
    p: Seq<T>,
    total: T,
    c: Seq<T>,
    i: nat,
)
    requires
        exact::adds(v),
        exact::divides(v),
        v(zero) == 0real,
        v(total) > 0real,
        probability::are_shares(zero, p, total, c),
        i <= p.len(),
    ensures
        v(c[i as int]) * v(total) == exact::total(i, |j: int| v(p[j])),
    decreases i,
{
    let all = v(total);
    if i > 0 {
        lemma_shares(v, zero, p, total, c, (i - 1) as nat);
        assert(probability::adds_share(c[i - 1], p[i - 1], total, c[i - 1 + 1]));
        let q = choose|q: T| #[trigger]
            crate::num::is_quotient(p[i - 1], total, q) && crate::num::is_sum(
                c[i - 1],
                q,
                c[i as int],
            );
        let a = v(c[i - 1]);
        let b = v(q);
        let w = v(p[i - 1]);
        assert((a + b) * all == a * all + w) by (nonlinear_arith)
            requires
                all > 0real,
                b == w / all,
        ;
    } else {
        assert(0real * all == 0real) by (nonlinear_arith);
    }
}

/// A sample is drawn by weight: the weight of a token is the exponential of its logit divided by the
/// temperature, or by the lowest one that counts.
pub proof fn law_sample_is_drawn_by_weight<
    T: Add<Output = T> + Sub<Output = T> + Mul<Output = T> + Div<Output = T>,
    M: Fn(T, T) -> T,
    E: Fn(T) -> T,
    N: Fn(T) -> T,
    B: Fn(T) -> u32,
    G: Fn(T, T) -> bool,
    L: Fn(T, T) -> bool,
    F: Fn(u32) -> T,
>(
    math: LogitMath<T, M, E, N, B, G, L, F>,
    v: spec_fn(T) -> real,
    exp: spec_fn(real) -> real,
    logits: Seq<T>,
    temperature: T,
    top_k: usize,
    top_p: T,
    uniform: T,
    token: u32,
    weight: spec_fn(int) -> real,
)
    requires
        is_exact(math, v, exp),
        v(math.floor) > 0real,
        probability::is_sample(math, logits, temperature, top_k, top_p, uniform, token),
        0 < logits.len() <= u32::MAX,
        forall|k: int|
            0 <= k < logits.len() ==> #[trigger] weight(k) == exp(
                v(logits[k]) / (if v(temperature) >= v(math.floor) {
                    v(temperature)
                } else {
                    v(math.floor)
                }),
            ),
    ensures
        is_drawn(logits.len() as int, weight, top_k, v(top_p), v(uniform), token),
{
    let (order, p, place) = choose|order: Seq<usize>, p: Seq<T>, place: int| #[trigger]
        probability::sampled_by(
            math,
            logits,
            temperature,
            top_k,
            top_p,
            uniform,
            order,
            p,
            place,
        ) && 0 <= place < order.len() && token == order[place] as u32;
    let (cut, r) = choose|cut: int, r: T| #[trigger]
        probability::is_draw(math.at_least, math.zero, p.take(cut), r, place)
            && probability::is_cut(math, p, top_p, cut) && exists|total: T| #[trigger]
            crate::num::sum_of(math.zero, p.take(cut), total) && crate::num::is_product(
                uniform,
                total,
                r,
            );
    let total = choose|total: T| #[trigger]
        crate::num::sum_of(math.zero, p.take(cut), total) && crate::num::is_product(
            uniform,
            total,
            r,
        );
    let n = logits.len() as int;
    let t = if v(temperature) >= v(math.floor) {
        v(temperature)
    } else {
        v(math.floor)
    };
    assert forall|k: int| 0 <= k < n implies #[trigger] weight(k) == exp(v(logits[k]) / t) by {}
    let w = choose|w: Seq<T>| #[trigger]
        probability::are_ranked(math, logits, temperature, order, w) && probability::are_ordered(
            w,
            order,
            p,
        );
    let (top, temp, bits) = choose|top: T, temp: T, bits: Seq<u32>| #[trigger]
        probability::are_weights(math.exp, math.to_bits, logits, top, temp, w, bits)
            && call_ensures(math.larger, (temperature, math.floor), temp) && crate::num::is_top(
            math.larger,
            math.lowest,
            logits,
            top,
        ) && crate::ranking::is_ranking(bits, order);
    assert(v(temp) == t);
    assert(t > 0real);
    let scale = exp(v(top) / t);
    assert(scale > 0real);
    assert forall|k: int| 0 <= k < n implies v(#[trigger] w[k]) * scale == weight(k) by {
        assert(probability::is_weight(math.exp, logits[k], top, temp, w[k]));
        let (d, q) = choose|d: T, q: T| #[trigger]
            crate::num::is_difference(logits[k], top, d) && #[trigger] crate::num::is_quotient(
                d,
                temp,
                q,
            ) && call_ensures(math.exp, (q,), w[k]);
        let x = v(logits[k]);
        let y = v(top);
        assert((x - y) / t + y / t == x / t) by (nonlinear_arith)
            requires
                t > 0real,
        ;
        assert(v(q) == (x - y) / t);
        assert(exp(v(q) + y / t) == exp(v(q)) * exp(y / t));
    }
    assert forall|a: int, b: int| 0 <= a < b < n implies #[trigger] order[a]
        != #[trigger] order[b] by {
        assert(crate::ranking::before(bits, order[a], order[b]));
    }
    assert forall|a: int, b: int|
        #![trigger order[a], order[b]]
        0 <= a < b < n implies weight(order[a] as int) >= weight(order[b] as int) by {
        assert(crate::ranking::before(bits, order[a], order[b]));
        let i = order[a] as int;
        let j = order[b] as int;
        assert(call_ensures(math.to_bits, (w[i],), bits[i]));
        assert(call_ensures(math.to_bits, (w[j],), bits[j]));
        let x = v(w[i]);
        let y = v(w[j]);
        assert(x >= y);
        assert(x * scale >= y * scale) by (nonlinear_arith)
            requires
                x >= y,
                scale > 0real,
        ;
    }
    assert forall|k: usize| k < n implies #[trigger] order.contains(k) by {}
    let count = p.len() as int;
    assert forall|m: int| 0 <= m <= count implies #[trigger] weight_of_first(weight, order, m,
    ) == exact::total(m as nat, |j: int| v(p[j])) * scale by {
        let f = |j: int| v(p[j]);
        let g = |j: int| f(j) * scale;
        let h = |j: int| weight(order[j] as int);
        assert forall|j: int| 0 <= j < m implies #[trigger] g(j) == h(j) by {
            assert(p[j] == w[order[j] as int]);
            assert(v(w[order[j] as int]) * scale == weight(order[j] as int));
        }
        exact::lemma_total_same(m as nat, g, h);
        exact::lemma_total_scaled(m as nat, f, scale);
    }
    let kept = p.take(cut);
    assert(0 <= cut <= count);
    let f = |j: int| v(p[j]);
    let g = |j: int| v(kept[j]);
    assert forall|m: nat| m <= cut implies #[trigger] exact::total(m, g) == exact::total(m, f) by {
        assert forall|j: int| 0 <= j < m implies #[trigger] g(j) == f(j) by {
            assert(kept[j] == p[j]);
        }
        exact::lemma_total_same(m, g, f);
    }
    exact::lemma_sum_value(v, math.zero, kept, total);
    let whole = exact::total(cut as nat, f);
    assert(v(total) == whole);
    assert(weight_of_first(weight, order, cut) == whole * scale);
    let u = v(uniform);
    assert(v(r) == u * whole);
    let rest = choose|rest: Seq<T>| #[trigger]
        probability::are_rests(kept, r, place, rest) && (forall|i: int|
            0 < i <= place ==> call_ensures(
                math.at_least,
                (math.zero, #[trigger] rest[i]),
                false,
            )) && (place == kept.len() - 1 || call_ensures(
            math.at_least,
            (math.zero, rest[place + 1]),
            true,
        ));
    lemma_rests(v, kept, r, place, rest, place as nat);
    lemma_rests(v, kept, r, place, rest, (place + 1) as nat);
    let before = exact::total(place as nat, f);
    let through = exact::total((place + 1) as nat, f);
    assert(weight_of_first(weight, order, place) == before * scale);
    assert(weight_of_first(weight, order, place + 1) == through * scale);
    assert(u * (whole * scale) == (u * whole) * scale) by (nonlinear_arith);
    if place > 0 {
        assert(call_ensures(math.at_least, (math.zero, rest[place]), false));
        assert(before < u * whole);
        let x = u * whole;
        assert(before * scale < x * scale) by (nonlinear_arith)
            requires
                before < x,
                scale > 0real,
        ;
    }
    if place < cut - 1 {
        assert(u * whole <= through);
        let x = u * whole;
        assert(x * scale <= through * scale) by (nonlinear_arith)
            requires
                x <= through,
                scale > 0real,
        ;
    }
    assert(weight_of_first(weight, order, count) == exact::total(count as nat, f)
        * scale);
    if v(top_p) < 1real {
        assert(!call_ensures(math.below, (top_p, math.one), false));
        let all = choose|all: T| #[trigger]
            crate::num::sum_of(math.zero, p, all) && probability::is_nucleus(
                math.at_least,
                math.zero,
                p,
                top_p,
                all,
                cut,
            );
        exact::lemma_sum_value(v, math.zero, p, all);
        assert forall|j: int| 0 <= j < count implies #[trigger] f(j) > 0real by {
            assert(p[j] == w[order[j] as int]);
            assert(probability::is_weight(math.exp, logits[order[j] as int], top, temp, p[j]));
        }
        exact::lemma_total_positive(count as nat, f);
        let c = choose|c: Seq<T>| #[trigger]
            probability::are_shares(math.zero, p.take(cut), all, c) && (forall|i: int|
                0 < i < cut ==> call_ensures(math.at_least, (#[trigger] c[i], top_p), false)) && (
            cut == p.len() || call_ensures(math.at_least, (c[cut], top_p), true));
        let sum = v(all);
        let share = v(top_p);
        lemma_shares(v, math.zero, kept, all, c, cut as nat);
        if cut < count {
            let x = v(c[cut]);
            assert(x >= share);
            assert(x * sum * scale >= share * (sum * scale)) by (nonlinear_arith)
                requires
                    x >= share,
                    sum > 0real,
                    scale > 0real,
            ;
        }
        if cut > 1 {
            lemma_shares(v, math.zero, kept, all, c, (cut - 1) as nat);
            let x = v(c[cut - 1]);
            assert(call_ensures(math.at_least, (c[cut - 1], top_p), false));
            assert(x < share);
            assert(x * sum * scale < share * (sum * scale)) by (nonlinear_arith)
                requires
                    x < share,
                    sum > 0real,
                    scale > 0real,
            ;
            assert(weight_of_first(weight, order, cut - 1) == exact::total(
                (cut - 1) as nat,
                f,
            ) * scale);
        }
    }
    assert(order[place] == token);
    assert(order.take(cut).len() == cut);
}

} // verus!
