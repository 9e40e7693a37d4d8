//! What the blocks of quantized vectors hold, and what dot products with them are worth.

use crate::exact;
use crate::quantize::dot_scalar;
use crate::quantize::types::QuantType;
use core::ops::{Add, Mul};
use vstd::prelude::*;

verus! {

/// `v` gives the integers and the scales of blocks their values: an integer its own, a scale one
/// that depends on its bits alone.
pub open spec fn values_blocks<T: From<i8>, W: Fn(u16) -> T>(
    v: spec_fn(T) -> real,
    widen: W,
) -> bool {
    &&& forall|n: i8, e: T| #[trigger] dot_scalar::is_element(n, e) ==> v(e) == (n as int) as real
    &&& forall|bits: u16, c: T, d: T|
        #![trigger call_ensures(widen, (bits,), c), call_ensures(widen, (bits,), d)]
        call_ensures(widen, (bits,), c) && call_ensures(widen, (bits,), d) ==> v(c) == v(d)
}

/// What a block is worth against the elements `x`: the products of the integers and elements, times
/// a factor.
spec fn worth<T>(v: spec_fn(T) -> real, x: Seq<T>, values: Seq<i8>, c: real) -> real {
    exact::total(32, |i: int| v(x[i]) * (values[i] as int) as real) * c
}

/// The term of a Q8_0 block.
proof fn lemma_q8_0_worth<T: Add<Output = T> + Mul<Output = T> + From<i8>, W: Fn(u16) -> T>(
    v: spec_fn(T) -> real,
    zero: T,
    x: Seq<T>,
    q: Seq<u8>,
    widen: W,
    b: int,
    t: T,
    c: T,
)
    requires
        exact::adds(v),
        exact::multiplies(v),
        v(zero) == 0real,
        values_blocks(v, widen),
        dot_scalar::q8_0_term(zero, x, q, widen, b, t),
        dot_scalar::is_scale(widen, q, 34 * b, c),
        0 <= 32 * b,
        32 * b + 32 <= x.len(),
    ensures
        v(t) == worth(v, dot_scalar::block_of(x, b), dot_scalar::q8_0_block(q, 34 * b), v(c)),
{
    let values = dot_scalar::q8_0_block(q, 34 * b);
    let xb = dot_scalar::block_of(x, b);
    let (s, d) = choose|s: T, d: T| #[trigger]
        crate::num::is_product(s, d, t) && dot_scalar::is_scale(widen, q, 34 * b, d)
            && dot_scalar::q8_0_sum(zero, xb, values, s);
    let e = choose|e: Seq<T>| #[trigger]
        dot_scalar::elements(values, e) && crate::num::dot_of(zero, xb, e, s);
    exact::law_dot_is_sum_of_products(v, zero, xb, e, s);
    let f = |i: int| v(xb[i]) * v(e[i]);
    let g = |i: int| v(xb[i]) * (values[i] as int) as real;
    assert forall|i: int| 0 <= i < 32 implies #[trigger] f(i) == g(i) by {
        assert(dot_scalar::is_element(values[i], e[i]));
    }
    exact::lemma_total_same(32, f, g);
}

/// The term of a Q4_0 block.
proof fn lemma_q4_0_worth<T: Add<Output = T> + Mul<Output = T> + From<i8>, W: Fn(u16) -> T>(
    v: spec_fn(T) -> real,
    zero: T,
    x: Seq<T>,
    q: Seq<u8>,
    widen: W,
    b: int,
    t: T,
    c: T,
)
    requires
        exact::adds(v),
        exact::multiplies(v),
        v(zero) == 0real,
        values_blocks(v, widen),
        dot_scalar::q4_0_term(zero, x, q, widen, b, t),
        dot_scalar::is_scale(widen, q, 18 * b, c),
        0 <= 32 * b,
        32 * b + 32 <= x.len(),
    ensures
        v(t) == worth(v, dot_scalar::block_of(x, b), dot_scalar::q4_0_block(q, 18 * b), v(c)),
{
    let values = dot_scalar::q4_0_block(q, 18 * b);
    let xb = dot_scalar::block_of(x, b);
    let (s, d) = choose|s: T, d: T| #[trigger]
        crate::num::is_product(s, d, t) && dot_scalar::is_scale(widen, q, 18 * b, d)
            && dot_scalar::q4_0_sum(zero, xb, values, s);
    let (e, p) = choose|e: Seq<T>, p: Seq<T>| #[trigger]
        dot_scalar::elements(values, e) && #[trigger] dot_scalar::interleaved_products(
            xb,
            e,
            p,
        ) && crate::num::sum_of(zero, p, s);
    exact::lemma_sum_value(v, zero, p, s);
    let g = |i: int| v(xb[i]) * (values[i] as int) as real;
    let f = |k: int| v(p[k]);
    let h = |k: int| g(k / 2 + 16 * (k % 2));
    assert forall|k: int| 0 <= k < 32 implies #[trigger] f(k) == h(k) by {
        let i = dot_scalar::q4_0_place(k);
        assert(crate::num::is_product(xb[i], e[i], p[k]));
        assert(0 <= i < 32);
        assert(dot_scalar::is_element(values[i], e[i]));
    }
    exact::lemma_total_same(32, f, h);
    exact::lemma_total_interleaved(16, 16, g);
    exact::lemma_total_splits(16, 16, g);
    let a = |i: int| g(i + 16);
    let z = |i: int| g(16 + i);
    exact::lemma_total_same(16, a, z);
}

/// The term of a Q5_0 block.
proof fn lemma_q5_0_worth<T: Add<Output = T> + Mul<Output = T> + From<i8>, W: Fn(u16) -> T>(
    v: spec_fn(T) -> real,
    zero: T,
    x: Seq<T>,
    q: Seq<u8>,
    widen: W,
    b: int,
    t: T,
    c: T,
)
    requires
        exact::adds(v),
        exact::multiplies(v),
        v(zero) == 0real,
        values_blocks(v, widen),
        dot_scalar::q5_0_term(zero, x, q, widen, b, t),
        dot_scalar::is_scale(widen, q, 22 * b, c),
        0 <= 32 * b,
        32 * b + 32 <= x.len(),
    ensures
        v(t) == worth(v, dot_scalar::block_of(x, b), dot_scalar::q5_0_block(q, 22 * b), v(c)),
{
    let values = dot_scalar::q5_0_block(q, 22 * b);
    let xb = dot_scalar::block_of(x, b);
    let (s, d) = choose|s: T, d: T| #[trigger]
        crate::num::is_product(d, s, t) && dot_scalar::is_scale(widen, q, 22 * b, d)
            && dot_scalar::q5_0_sum(zero, xb, values, s);
    let (e, p, u) = choose|e: Seq<T>, p: Seq<T>, u: Seq<T>| #[trigger]
        dot_scalar::elements(values, e) && #[trigger] crate::num::products(
            e,
            xb,
            p,
        ) && #[trigger] dot_scalar::paired_sums(p, u) && crate::num::sum_of(
            zero,
            u,
            s,
        );
    exact::lemma_sum_value(v, zero, u, s);
    let g = |i: int| v(xb[i]) * (values[i] as int) as real;
    let z = |i: int| g(16 + i);
    let f = |k: int| v(u[k]);
    let h = |k: int| g(k) + z(k);
    assert forall|k: int| 0 <= k < 16 implies #[trigger] f(k) == h(k) by {
        assert(crate::num::is_sum(p[k], p[k + 16], u[k]));
        assert(crate::num::is_product(e[k], xb[k], p[k]));
        assert(crate::num::is_product(e[k + 16], xb[k + 16], p[k + 16]));
        assert(dot_scalar::is_element(values[k], e[k]));
        assert(dot_scalar::is_element(values[k + 16], e[k + 16]));
        let a = v(e[k]);
        let y = v(xb[k]);
        let a2 = v(e[k + 16]);
        let y2 = v(xb[k + 16]);
        assert(a * y == y * a && a2 * y2 == y2 * a2) by (nonlinear_arith);
    }
    exact::lemma_total_same(16, f, h);
    exact::lemma_total_adds(16, g, z);
    exact::lemma_total_splits(16, 16, g);
    let sum = v(s);
    let factor = v(d);
    assert(factor * sum == sum * factor) by (nonlinear_arith);
}

/// A block's worth is that of its elements.
proof fn lemma_worth_of_elements<
    T: Add<Output = T> + Mul<Output = T> + From<i8>,
    W: Fn(u16) -> T,
>(
    v: spec_fn(T) -> real,
    qtype: QuantType,
    widen: W,
    q: Seq<u8>,
    input: Seq<T>,
    x: Seq<T>,
    b: int,
    c: T,
)
    requires
        exact::multiplies(v),
        values_blocks(v, widen),
        crate::quantize::dequantize::are_dequantized(qtype, widen, q, x),
        dot_scalar::is_scale(widen, q, b * qtype.bytes_per_block(), c),
        0 <= b,
        32 * b + 32 <= x.len(),
        32 * b + 32 <= input.len(),
    ensures
        worth(
            v,
            dot_scalar::block_of(input, b),
            crate::quantize::dequantize::block_values(qtype, q, b * qtype.bytes_per_block()),
            v(c),
        ) == exact::total(32, |i: int| v(input[32 * b + i]) * v(x[32 * b + i])),
{
    let start = b * qtype.bytes_per_block();
    let values = crate::quantize::dequantize::block_values(qtype, q, start);
    let xb = dot_scalar::block_of(input, b);
    let g = |i: int| v(xb[i]) * (values[i] as int) as real;
    let scaled = |i: int| g(i) * v(c);
    let f = |i: int| v(input[32 * b + i]) * v(x[32 * b + i]);
    assert forall|i: int| 0 <= i < 32 implies #[trigger] scaled(i) == f(i) by {
        let k = 32 * b + i;
        assert(k / 32 == b && k % 32 == i);
        assert(crate::quantize::dequantize::is_scaled(widen, q, start, values[i], x[k]));
        let (e, d) = choose|e: T, d: T| #[trigger]
            crate::num::is_product(e, d, x[k]) && dot_scalar::is_element(values[i], e) && dot_scalar::is_scale(
                widen,
                q,
                start,
                d,
            );
        let y = v(xb[i]);
        let n = (values[i] as int) as real;
        let r = v(c);
        assert((y * n) * r == y * (n * r)) by (nonlinear_arith);
    }
    exact::lemma_total_same(32, scaled, f);
    exact::lemma_total_scaled(32, g, v(c));
}

/// The scale of a block, as dequantization meets it.
proof fn lemma_scale_of<T: Mul<Output = T> + From<i8>, W: Fn(u16) -> T>(
    qtype: QuantType,
    widen: W,
    q: Seq<u8>,
    x: Seq<T>,
    b: int,
) -> (c: T)
    requires
        crate::quantize::dequantize::are_dequantized(qtype, widen, q, x),
        0 <= b,
        32 * b + 32 <= x.len(),
    ensures
        dot_scalar::is_scale(widen, q, b * qtype.bytes_per_block(), c),
{
    let start = b * qtype.bytes_per_block();
    let k = 32 * b;
    assert(k / 32 == b && k % 32 == 0);
    let values = crate::quantize::dequantize::block_values(qtype, q, start);
    assert(crate::quantize::dequantize::is_scaled(widen, q, start, values[0], x[k]));
    let (e, d) = choose|e: T, d: T| #[trigger]
        crate::num::is_product(e, d, x[k]) && dot_scalar::is_element(values[0], e) && dot_scalar::is_scale(
            widen,
            q,
            start,
            d,
        );
    d
}

/// Terms that are worth the products of their blocks add up to the products of all blocks.
proof fn lemma_blocks_add_up<T>(v: spec_fn(T) -> real, input: Seq<T>, x: Seq<T>, t: Seq<T>, n: nat)
    requires
        n <= t.len(),
        forall|b: int|
            0 <= b < t.len() ==> v(#[trigger] t[b]) == exact::total(
                32,
                |i: int| v(input[32 * b + i]) * v(x[32 * b + i]),
            ),
    ensures
        exact::total(n, |b: int| v(t[b])) == exact::total(32 * n, |k: int| v(input[k]) * v(x[k])),
    decreases n,
{
    if n > 0 {
        let m = (n - 1) as nat;
        lemma_blocks_add_up(v, input, x, t, m);
        let g = |k: int| v(input[k]) * v(x[k]);
        exact::lemma_total_splits(32 * m, 32, g);
        let a = |i: int| g(32 * m + i);
        let z = |i: int| v(input[32 * m + i]) * v(x[32 * m + i]);
        exact::lemma_total_same(32, a, z);
        assert(v(t[n - 1]) == exact::total(32, z));
        assert(32 * m + 32 == 32 * n);
    }
}

/// A Q4_0 dot product agrees with dequantization: it is worth the dot product of the input with the
/// elements that dequantization gives for the blocks.
pub proof fn law_dot_q4_0_agrees_with_dequantization<
    T: Add<Output = T> + Mul<Output = T> + From<i8>,
    W: Fn(u16) -> T,
>(
    v: spec_fn(T) -> real,
    zero: T,
    input: Seq<T>,
    q: Seq<u8>,
    n: int,
    widen: W,
    sum: T,
    x: Seq<T>,
)
    requires
        exact::adds(v),
        exact::multiplies(v),
        v(zero) == 0real,
        values_blocks(v, widen),
        dot_scalar::is_q4_0_dot(zero, input, q, n, widen, sum),
        crate::quantize::dequantize::are_dequantized(QuantType::Q4_0, widen, q, x),
        0 <= n,
        x.len() == 32 * (n / 32),
        x.len() <= input.len(),
    ensures
        v(sum) == exact::total(x.len(), |k: int| v(input[k]) * v(x[k])),
{
    let t = choose|t: Seq<T>|
        t.len() == n / 32 && #[trigger] dot_scalar::q4_0_terms(zero, input, q, widen, t)
            && crate::num::sum_of(zero, t, sum);
    assert forall|b: int| 0 <= b < t.len() implies v(#[trigger] t[b]) == exact::total(
        32,
        |i: int| v(input[32 * b + i]) * v(x[32 * b + i]),
    ) by {
        let c = lemma_scale_of(QuantType::Q4_0, widen, q, x, b);
        lemma_q4_0_worth(v, zero, input, q, widen, b, t[b], c);
        lemma_worth_of_elements(v, QuantType::Q4_0, widen, q, input, x, b, c);
    }
    lemma_blocks_add_up(v, input, x, t, t.len());
    exact::lemma_sum_value(v, zero, t, sum);
}

/// A Q5_0 dot product agrees with dequantization: it is worth the dot product of the input with the
/// elements that dequantization gives for the blocks.
pub proof fn law_dot_q5_0_agrees_with_dequantization<
    T: Add<Output = T> + Mul<Output = T> + From<i8>,
    W: Fn(u16) -> T,
>(
    v: spec_fn(T) -> real,
    zero: T,
    input: Seq<T>,
    q: Seq<u8>,
    n: int,
    widen: W,
    sum: T,
    x: Seq<T>,
)
    requires
        exact::adds(v),
        exact::multiplies(v),
        v(zero) == 0real,
        values_blocks(v, widen),
        dot_scalar::is_q5_0_dot(zero, input, q, n, widen, sum),
        crate::quantize::dequantize::are_dequantized(QuantType::Q5_0, widen, q, x),
        0 <= n,
        x.len() == 32 * (n / 32),
        x.len() <= input.len(),
    ensures
        v(sum) == exact::total(x.len(), |k: int| v(input[k]) * v(x[k])),
{
    let t = choose|t: Seq<T>|
        t.len() == n / 32 && #[trigger] dot_scalar::q5_0_terms(zero, input, q, widen, t)
            && crate::num::sum_of(zero, t, sum);
    assert forall|b: int| 0 <= b < t.len() implies v(#[trigger] t[b]) == exact::total(
        32,
        |i: int| v(input[32 * b + i]) * v(x[32 * b + i]),
    ) by {
        let c = lemma_scale_of(QuantType::Q5_0, widen, q, x, b);
        lemma_q5_0_worth(v, zero, input, q, widen, b, t[b], c);
        lemma_worth_of_elements(v, QuantType::Q5_0, widen, q, input, x, b, c);
    }
    lemma_blocks_add_up(v, input, x, t, t.len());
    exact::lemma_sum_value(v, zero, t, sum);
}

/// A Q8_0 dot product agrees with dequantization: it is worth the dot product of the input with the
/// elements that dequantization gives for the blocks.
pub proof fn law_dot_q8_0_agrees_with_dequantization<
    T: Add<Output = T> + Mul<Output = T> + From<i8>,
    W: Fn(u16) -> T,
>(
    v: spec_fn(T) -> real,
    zero: T,
    input: Seq<T>,
    q: Seq<u8>,
    n: int,
    widen: W,
    sum: T,
    x: Seq<T>,
)
    requires
        exact::adds(v),
        exact::multiplies(v),
        v(zero) == 0real,
        values_blocks(v, widen),
        dot_scalar::is_q8_0_dot(zero, input, q, n, widen, sum),
        crate::quantize::dequantize::are_dequantized(QuantType::Q8_0, widen, q, x),
        0 <= n,
        x.len() == 32 * (n / 32),
        x.len() <= input.len(),
    ensures
        v(sum) == exact::total(x.len(), |k: int| v(input[k]) * v(x[k])),
{
    let t = choose|t: Seq<T>|
        t.len() == n / 32 && #[trigger] dot_scalar::q8_0_terms(zero, input, q, widen, t)
            && crate::num::sum_of(zero, t, sum);
    assert forall|b: int| 0 <= b < t.len() implies v(#[trigger] t[b]) == exact::total(
        32,
        |i: int| v(input[32 * b + i]) * v(x[32 * b + i]),
    ) by {
        let c = lemma_scale_of(QuantType::Q8_0, widen, q, x, b);
        lemma_q8_0_worth(v, zero, input, q, widen, b, t[b], c);
        lemma_worth_of_elements(v, QuantType::Q8_0, widen, q, input, x, b, c);
    }
    lemma_blocks_add_up(v, input, x, t, t.len());
    exact::lemma_sum_value(v, zero, t, sum);
}

/// The dot product over two Q4_0 vectors, one behind the other, has the terms of the first followed
/// by those that the second has on its own.
pub proof fn law_q4_0_terms_of_concatenation<
    T: Add<Output = T> + Mul<Output = T> + From<i8>,
    W: Fn(u16) -> T,
>(
    zero: T,
    x1: Seq<T>,
    q1: Seq<u8>,
    x2: Seq<T>,
    q2: Seq<u8>,
    widen: W,
    n1: int,
    b: int,
    t: T,
)
    requires
        0 <= n1,
        x1.len() == 32 * n1,
        q1.len() == 18 * n1,
        0 <= b,
        32 * (b - n1) + 32 <= x2.len(),
        18 * (b - n1) + 18 <= q2.len(),
    ensures
        b < n1 ==> (dot_scalar::q4_0_term(zero, x1 + x2, q1 + q2, widen, b, t) <==> dot_scalar::q4_0_term(
            zero,
            x1,
            q1,
            widen,
            b,
            t,
        )),
        b >= n1 ==> (dot_scalar::q4_0_term(zero, x1 + x2, q1 + q2, widen, b, t) <==> dot_scalar::q4_0_term(
            zero,
            x2,
            q2,
            widen,
            b - n1,
            t,
        )),
{
    if b < n1 {
        assert(dot_scalar::block_of(x1 + x2, b) =~= dot_scalar::block_of(x1, b));
        assert(dot_scalar::q4_0_block(q1 + q2, 18 * b) =~= dot_scalar::q4_0_block(q1, 18 * b));
    } else {
        assert(dot_scalar::block_of(x1 + x2, b) =~= dot_scalar::block_of(x2, b - n1));
        assert(dot_scalar::q4_0_block(q1 + q2, 18 * b) =~= dot_scalar::q4_0_block(q2, 18 * (b - n1)));
    }
}

/// The dot product over two Q5_0 vectors, one behind the other, has the terms of the first followed
/// by those that the second has on its own.
pub proof fn law_q5_0_terms_of_concatenation<
    T: Add<Output = T> + Mul<Output = T> + From<i8>,
    W: Fn(u16) -> T,
>(
    zero: T,
    x1: Seq<T>,
    q1: Seq<u8>,
    x2: Seq<T>,
    q2: Seq<u8>,
    widen: W,
    n1: int,
    b: int,
    t: T,
)
    requires
        0 <= n1,
        x1.len() == 32 * n1,
        q1.len() == 22 * n1,
        0 <= b,
        32 * (b - n1) + 32 <= x2.len(),
        22 * (b - n1) + 22 <= q2.len(),
    ensures
        b < n1 ==> (dot_scalar::q5_0_term(zero, x1 + x2, q1 + q2, widen, b, t) <==> dot_scalar::q5_0_term(
            zero,
            x1,
            q1,
            widen,
            b,
            t,
        )),
        b >= n1 ==> (dot_scalar::q5_0_term(zero, x1 + x2, q1 + q2, widen, b, t) <==> dot_scalar::q5_0_term(
            zero,
            x2,
            q2,
            widen,
            b - n1,
            t,
        )),
{
    if b < n1 {
        assert(dot_scalar::block_of(x1 + x2, b) =~= dot_scalar::block_of(x1, b));
        assert(dot_scalar::q5_0_block(q1 + q2, 22 * b) =~= dot_scalar::q5_0_block(q1, 22 * b));
    } else {
        assert(dot_scalar::block_of(x1 + x2, b) =~= dot_scalar::block_of(x2, b - n1));
        assert(dot_scalar::q5_0_block(q1 + q2, 22 * b) =~= dot_scalar::q5_0_block(q2, 22 * (b - n1)));
    }
}

/// The dot product over two Q8_0 vectors, one behind the other, has the terms of the first followed
/// by those that the second has on its own.
pub proof fn law_q8_0_terms_of_concatenation<
    T: Add<Output = T> + Mul<Output = T> + From<i8>,
    W: Fn(u16) -> T,
>(
    zero: T,
    x1: Seq<T>,
    q1: Seq<u8>,
    x2: Seq<T>,
    q2: Seq<u8>,
    widen: W,
    n1: int,
    b: int,
    t: T,
)
    requires
        0 <= n1,
        x1.len() == 32 * n1,
        q1.len() == 34 * n1,
        0 <= b,
        32 * (b - n1) + 32 <= x2.len(),
        34 * (b - n1) + 34 <= q2.len(),
    ensures
        b < n1 ==> (dot_scalar::q8_0_term(zero, x1 + x2, q1 + q2, widen, b, t) <==> dot_scalar::q8_0_term(
            zero,
            x1,
            q1,
            widen,
            b,
            t,
        )),
        b >= n1 ==> (dot_scalar::q8_0_term(zero, x1 + x2, q1 + q2, widen, b, t) <==> dot_scalar::q8_0_term(
            zero,
            x2,
            q2,
            widen,
            b - n1,
            t,
        )),
{
    if b < n1 {
        assert(dot_scalar::block_of(x1 + x2, b) =~= dot_scalar::block_of(x1, b));
        assert(dot_scalar::q8_0_block(q1 + q2, 34 * b) =~= dot_scalar::q8_0_block(q1, 34 * b));
    } else {
        assert(dot_scalar::block_of(x1 + x2, b) =~= dot_scalar::block_of(x2, b - n1));
        assert(dot_scalar::q8_0_block(q1 + q2, 34 * b) =~= dot_scalar::q8_0_block(q2, 34 * (b - n1)));
    }
}

/// The two bytes of a scale's bits, the low one first.
pub open spec fn scale_bytes(bits: u16) -> Seq<u8> {
    seq![(bits as int % 256) as u8, (bits as int / 256) as u8]
}

/// The bytes that hold `values` in nibbles, each raised by `offset`: value `i` in the low half of
/// byte `i`, value `i + 16` in its high half. What a nibble cannot hold is left out.
pub open spec fn nibble_bytes(values: Seq<i8>, offset: int) -> Seq<u8> {
    Seq::new(
        16,
        |i: int|
            ((values[i] + offset) % 16 + 16 * ((values[i + 16] + offset) % 16)) as u8,
    )
}

/// A Q4_0 block reads back: its scale, and 32 values from -8 to 7.
pub proof fn law_q4_0_block_reads_back<T, W: Fn(u16) -> T>(
    before: Seq<u8>,
    bits: u16,
    values: Seq<i8>,
    after: Seq<u8>,
    widen: W,
    c: T,
)
    requires
        values.len() == 32,
        forall|i: int| 0 <= i < 32 ==> -8 <= #[trigger] values[i] <= 7,
    ensures
        ({
            let q = before + scale_bytes(bits) + nibble_bytes(values, 8) + after;
            &&& dot_scalar::q4_0_block(q, before.len() as int) == values
            &&& dot_scalar::is_scale(widen, q, before.len() as int, c) <==> call_ensures(widen, (bits,), c)
        }),
{
    let q = before + scale_bytes(bits) + nibble_bytes(values, 8) + after;
    let n = before.len() as int;
    assert(q[n] == scale_bytes(bits)[0] && q[n + 1] == scale_bytes(bits)[1]);
    assert forall|i: int| 0 <= i < 32 implies dot_scalar::q4_0_block(q, n)[i] == values[i] by {
        let j = if i < 16 {
            i
        } else {
            i - 16
        };
        assert(q[n + 2 + j] == nibble_bytes(values, 8)[j]);
        assert(-8 <= values[j] <= 7 && -8 <= values[j + 16] <= 7);
    }
    assert(dot_scalar::q4_0_block(q, n) =~= values);
}

/// A Q8_0 block reads back: its scale, and 32 values of a signed byte each.
pub proof fn law_q8_0_block_reads_back<T, W: Fn(u16) -> T>(
    before: Seq<u8>,
    bits: u16,
    values: Seq<i8>,
    after: Seq<u8>,
    widen: W,
    c: T,
)
    requires
        values.len() == 32,
    ensures
        ({
            let bytes = Seq::new(32, |i: int| (values[i] as int % 256) as u8);
            let q = before + scale_bytes(bits) + bytes + after;
            &&& dot_scalar::q8_0_block(q, before.len() as int) == values
            &&& dot_scalar::is_scale(widen, q, before.len() as int, c) <==> call_ensures(widen, (bits,), c)
        }),
{
    let bytes = Seq::new(32, |i: int| (values[i] as int % 256) as u8);
    let q = before + scale_bytes(bits) + bytes + after;
    let n = before.len() as int;
    assert(q[n] == scale_bytes(bits)[0] && q[n + 1] == scale_bytes(bits)[1]);
    assert forall|i: int| 0 <= i < 32 implies dot_scalar::q8_0_block(q, n)[i] == values[i] by {
        assert(q[n + 2 + i] == bytes[i]);
    }
    assert(dot_scalar::q8_0_block(q, n) =~= values);
}

/// A Q5_0 block reads back: its scale, and 32 values from -16 to 15 whose fifth bits, from the
/// first value on, are the binary digits of `high` from the lowest on.
pub proof fn law_q5_0_block_reads_back<T, W: Fn(u16) -> T>(
    before: Seq<u8>,
    bits: u16,
    high: u32,
    values: Seq<i8>,
    after: Seq<u8>,
    widen: W,
    c: T,
)
    requires
        values.len() == 32,
        forall|i: int| 0 <= i < 32 ==> -16 <= #[trigger] values[i] <= 15,
        forall|i: int|
            0 <= i < 32 ==> (#[trigger] values[i] >= 0 <==> high as int
                / vstd::arithmetic::power2::pow2(i as nat) as int % 2 == 1),
    ensures
        ({
            let marks = seq![
                (high as int % 0x100) as u8,
                (high as int / 0x100 % 0x100) as u8,
                (high as int / 0x1_0000 % 0x100) as u8,
                (high as int / 0x100_0000) as u8,
            ];
            let q = before + scale_bytes(bits) + marks + nibble_bytes(values, 16) + after;
            &&& dot_scalar::q5_0_block(q, before.len() as int) == values
            &&& dot_scalar::is_scale(widen, q, before.len() as int, c) <==> call_ensures(widen, (bits,), c)
        }),
{
    let marks = seq![
        (high as int % 0x100) as u8,
        (high as int / 0x100 % 0x100) as u8,
        (high as int / 0x1_0000 % 0x100) as u8,
        (high as int / 0x100_0000) as u8,
    ];
    let q = before + scale_bytes(bits) + marks + nibble_bytes(values, 16) + after;
    let n = before.len() as int;
    assert(q[n] == scale_bytes(bits)[0] && q[n + 1] == scale_bytes(bits)[1]);
    assert(q[n + 2] == marks[0] && q[n + 3] == marks[1] && q[n + 4] == marks[2] && q[n + 5]
        == marks[3]);
    assert(crate::le::u32_at(q, n + 2) == high);
    assert forall|i: int| 0 <= i < 32 implies dot_scalar::q5_0_block(q, n)[i] == values[i] by {
        let j = if i < 16 {
            i
        } else {
            i - 16
        };
        assert(q[n + 6 + j] == nibble_bytes(values, 16)[j]);
        assert(-16 <= values[j] <= 15 && -16 <= values[j + 16] <= 15);
        vstd::bits::lemma_u32_shr_is_div(high, i as u32);
        let d = (high >> (i as u32)) as int;
        assert(values[i] >= 0 <==> d % 2 == 1);
        assert(dot_scalar::q5_0_high_bit(q, n, i) == d % 2);
        assert(dot_scalar::q5_0_value(q, n, i) == values[i]);
    }
    assert(dot_scalar::q5_0_block(q, n) =~= values);
}

} // verus!
