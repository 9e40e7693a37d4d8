//! Scalar quantized dot products.
//!
//! A quantized vector is a row of blocks. Each block holds the bits of a half-precision scale,
//! which the caller's `widen` turns into an element, and 32 small integers.

use crate::quantize::types::{
    Q4_0_BLOCK_BYTES, Q4_0_BLOCK_SIZE, Q5_0_BLOCK_BYTES, Q5_0_BLOCK_SIZE, Q8_0_BLOCK_BYTES,
    Q8_0_BLOCK_SIZE,
};
use core::ops::{Add, Mul};
use vstd::prelude::*;

verus! {

/// The value of the 4-bit integer `i` of the Q4_0 block at `start`: the low nibbles of the
/// sixteen data bytes come first, then the high nibbles, each less 8.
pub open spec fn q4_0_value(q: Seq<u8>, start: int, i: int) -> int {
    if i < 16 {
        q[start + 2 + i] % 16 - 8
    } else {
        q[start + 2 + (i - 16)] / 16 - 8
    }
}

/// The fifth bit of value `i`, out of the four bytes behind the scale.
pub open spec fn q5_0_high_bit(q: Seq<u8>, start: int, i: int) -> int {
    (crate::le::u32_at(q, start + 2) >> (i as u32)) as int % 2
}

/// The value of the 5-bit integer `i` of the Q5_0 block at `start`: a nibble, laid out as in
/// Q4_0, with its fifth bit on top, less 16.
pub open spec fn q5_0_value(q: Seq<u8>, start: int, i: int) -> int {
    (if i < 16 {
        q[start + 6 + i] % 16
    } else {
        q[start + 6 + (i - 16)] / 16
    }) + 16 * q5_0_high_bit(q, start, i) - 16
}

/// The value of the signed byte `i` of the Q8_0 block at `start`.
pub open spec fn q8_0_value(q: Seq<u8>, start: int, i: int) -> int {
    crate::le::signed(q[start + 2 + i] as int, 0x100)
}

/// The 32 values of the Q4_0 block at `start`.
pub fn q4_0_values(q: &[u8], start: usize) -> (v: Vec<i8>)
    requires
        start + Q4_0_BLOCK_BYTES <= q@.len(),
    ensures
        v@.len() == 32,
        forall|i: int| 0 <= i < 32 ==> #[trigger] v@[i] == q4_0_value(q@, start as int, i),
{
    let len: usize = q.len();
    let mut v: Vec<i8> = Vec::new();
    let mut i: usize = 0;
    while i < 32
        invariant
            i <= 32,
            v@.len() == i,
            len == q@.len(),
            start + Q4_0_BLOCK_BYTES <= q@.len(),
            forall|j: int| 0 <= j < i ==> #[trigger] v@[j] == q4_0_value(q@, start as int, j),
        decreases 32 - i,
    {
        let x: i8 = if i < 16 {
            (q[start + 2 + i] % 16) as i8 - 8
        } else {
            (q[start + 2 + (i - 16)] / 16) as i8 - 8
        };
        v.push(x);
        i = i + 1;
    }
    v
}

/// The 32 values of the Q5_0 block at `start`.
pub fn q5_0_values(q: &[u8], start: usize) -> (v: Vec<i8>)
    requires
        start + Q5_0_BLOCK_BYTES <= q@.len(),
    ensures
        v@.len() == 32,
        forall|i: int| 0 <= i < 32 ==> #[trigger] v@[i] == q5_0_value(q@, start as int, i),
{
    let len: usize = q.len();
    let high: u32 = crate::le::get_u32(q, start + 2);
    let mut v: Vec<i8> = Vec::new();
    let mut i: usize = 0;
    while i < 32
        invariant
            i <= 32,
            v@.len() == i,
            len == q@.len(),
            start + Q5_0_BLOCK_BYTES <= q@.len(),
            high == crate::le::u32_at(q@, start + 2),
            forall|j: int| 0 <= j < i ==> #[trigger] v@[j] == q5_0_value(q@, start as int, j),
        decreases 32 - i,
    {
        let bit: i8 = ((high >> (i as u32)) % 2) as i8;
        let nibble: i8 = if i < 16 {
            (q[start + 6 + i] % 16) as i8
        } else {
            (q[start + 6 + (i - 16)] / 16) as i8
        };
        v.push(nibble + 16 * bit - 16);
        i = i + 1;
    }
    v
}

/// The 32 values of the Q8_0 block at `start`.
pub fn q8_0_values(q: &[u8], start: usize) -> (v: Vec<i8>)
    requires
        start + Q8_0_BLOCK_BYTES <= q@.len(),
    ensures
        v@.len() == 32,
        forall|i: int| 0 <= i < 32 ==> #[trigger] v@[i] == q8_0_value(q@, start as int, i),
{
    let len: usize = q.len();
    let mut v: Vec<i8> = Vec::new();
    let mut i: usize = 0;
    while i < 32
        invariant
            i <= 32,
            v@.len() == i,
            len == q@.len(),
            start + Q8_0_BLOCK_BYTES <= q@.len(),
            forall|j: int| 0 <= j < i ==> #[trigger] v@[j] == q8_0_value(q@, start as int, j),
        decreases 32 - i,
    {
        let b: u8 = q[start + 2 + i];
        let x: i8 = if b < 128 {
            b as i8
        } else {
            (b - 128) as i8 + i8::MIN
        };
        v.push(x);
        i = i + 1;
    }
    v
}

/// The 32 values of the Q4_0 block at `start`.
pub open spec fn q4_0_block(q: Seq<u8>, start: int) -> Seq<i8> {
    Seq::new(32, |i: int| q4_0_value(q, start, i) as i8)
}

/// The 32 values of the Q5_0 block at `start`.
pub open spec fn q5_0_block(q: Seq<u8>, start: int) -> Seq<i8> {
    Seq::new(32, |i: int| q5_0_value(q, start, i) as i8)
}

/// The 32 values of the Q8_0 block at `start`.
pub open spec fn q8_0_block(q: Seq<u8>, start: int) -> Seq<i8> {
    Seq::new(32, |i: int| q8_0_value(q, start, i) as i8)
}

/// `e` is the element that stands for the integer `v`.
pub open spec fn is_element<T: From<i8>>(v: i8, e: T) -> bool {
    call_ensures(<T as From<i8>>::from, (v,), e)
}

/// `e` holds the elements that stand for the integers in `v`.
pub open spec fn elements<T: From<i8>>(v: Seq<i8>, e: Seq<T>) -> bool {
    &&& e.len() == v.len()
    &&& forall|i: int| 0 <= i < v.len() ==> is_element(v[i], #[trigger] e[i])
}

/// The place of the product that a Q4_0 block adds as number `k`: places 0, 16, 1, 17 and so on.
pub open spec fn q4_0_place(k: int) -> int {
    k / 2 + 16 * (k % 2)
}

/// The products of a Q4_0 block in the order in which they are added.
pub open spec fn interleaved_products<T: Mul<Output = T>>(x: Seq<T>, e: Seq<T>, t: Seq<T>) -> bool {
    &&& t.len() == 32
    &&& forall|k: int|
        0 <= k < 32 ==> crate::num::is_product(x[q4_0_place(k)], e[q4_0_place(k)], #[trigger] t[k])
}

/// `s` is what a Q4_0 block of values `v` gives against the elements `x`.
pub open spec fn q4_0_sum<T: Add<Output = T> + Mul<Output = T> + From<i8>>(
    zero: T,
    x: Seq<T>,
    v: Seq<i8>,
    s: T,
) -> bool {
    exists|e: Seq<T>, t: Seq<T>| #[trigger]
        elements(v, e) && #[trigger] interleaved_products(x, e, t) && crate::num::sum_of(zero, t, s)
}

/// The terms of a Q5_0 block: the sums of the products at places `k` and `k + 16`.
pub open spec fn paired_sums<T: Add<Output = T>>(p: Seq<T>, t: Seq<T>) -> bool {
    &&& t.len() == 16
    &&& forall|k: int| 0 <= k < 16 ==> crate::num::is_sum(p[k], p[k + 16], #[trigger] t[k])
}

/// `s` is what a Q5_0 block of values `v` gives against the elements `x`.
pub open spec fn q5_0_sum<T: Add<Output = T> + Mul<Output = T> + From<i8>>(
    zero: T,
    x: Seq<T>,
    v: Seq<i8>,
    s: T,
) -> bool {
    exists|e: Seq<T>, p: Seq<T>, t: Seq<T>| #[trigger]
        elements(v, e) && #[trigger] crate::num::products(e, x, p) && #[trigger] paired_sums(p, t)
            && crate::num::sum_of(zero, t, s)
}

/// `s` is what a Q8_0 block of values `v` gives against the elements `x`.
pub open spec fn q8_0_sum<T: Add<Output = T> + Mul<Output = T> + From<i8>>(
    zero: T,
    x: Seq<T>,
    v: Seq<i8>,
    s: T,
) -> bool {
    exists|e: Seq<T>| #[trigger] elements(v, e) && crate::num::dot_of(zero, x, e, s)
}

/// The part of `x` that meets block `b`.
pub open spec fn block_of<T>(x: Seq<T>, b: int) -> Seq<T> {
    x.subrange(32 * b, 32 * b + 32)
}

/// `scale` is what `widen` makes of the scale bits of the block at `start`.
pub open spec fn is_scale<T, W: Fn(u16) -> T>(widen: W, q: Seq<u8>, start: int, scale: T) -> bool {
    call_ensures(widen, (crate::le::u16_at(q, start),), scale)
}

/// `t` is the term of block `b`: the block's sum times its scale.
pub open spec fn q4_0_term<T: Add<Output = T> + Mul<Output = T> + From<i8>, W: Fn(u16) -> T>(
    zero: T,
    x: Seq<T>,
    q: Seq<u8>,
    widen: W,
    b: int,
    t: T,
) -> bool {
    exists|s: T, c: T| #[trigger]
        crate::num::is_product(s, c, t) && is_scale(widen, q, 18 * b, c) && q4_0_sum(
            zero,
            block_of(x, b),
            q4_0_block(q, 18 * b),
            s,
        )
}

/// `t` holds the terms of all blocks.
pub open spec fn q4_0_terms<T: Add<Output = T> + Mul<Output = T> + From<i8>, W: Fn(u16) -> T>(
    zero: T,
    x: Seq<T>,
    q: Seq<u8>,
    widen: W,
    t: Seq<T>,
) -> bool {
    forall|b: int| 0 <= b < t.len() ==> q4_0_term(zero, x, q, widen, b, #[trigger] t[b])
}

/// `t` is the term of block `b`: the block's scale times its sum.
pub open spec fn q5_0_term<T: Add<Output = T> + Mul<Output = T> + From<i8>, W: Fn(u16) -> T>(
    zero: T,
    x: Seq<T>,
    q: Seq<u8>,
    widen: W,
    b: int,
    t: T,
) -> bool {
    exists|s: T, c: T| #[trigger]
        crate::num::is_product(c, s, t) && is_scale(widen, q, 22 * b, c) && q5_0_sum(
            zero,
            block_of(x, b),
            q5_0_block(q, 22 * b),
            s,
        )
}

/// `t` holds the terms of all blocks.
pub open spec fn q5_0_terms<T: Add<Output = T> + Mul<Output = T> + From<i8>, W: Fn(u16) -> T>(
    zero: T,
    x: Seq<T>,
    q: Seq<u8>,
    widen: W,
    t: Seq<T>,
) -> bool {
    forall|b: int| 0 <= b < t.len() ==> q5_0_term(zero, x, q, widen, b, #[trigger] t[b])
}

/// `t` is the term of block `b`: the block's sum times its scale.
pub open spec fn q8_0_term<T: Add<Output = T> + Mul<Output = T> + From<i8>, W: Fn(u16) -> T>(
    zero: T,
    x: Seq<T>,
    q: Seq<u8>,
    widen: W,
    b: int,
    t: T,
) -> bool {
    exists|s: T, c: T| #[trigger]
        crate::num::is_product(s, c, t) && is_scale(widen, q, 34 * b, c) && q8_0_sum(
            zero,
            block_of(x, b),
            q8_0_block(q, 34 * b),
            s,
        )
}

/// `t` holds the terms of all blocks.
pub open spec fn q8_0_terms<T: Add<Output = T> + Mul<Output = T> + From<i8>, W: Fn(u16) -> T>(
    zero: T,
    x: Seq<T>,
    q: Seq<u8>,
    widen: W,
    t: Seq<T>,
) -> bool {
    forall|b: int| 0 <= b < t.len() ==> q8_0_term(zero, x, q, widen, b, #[trigger] t[b])
}

/// `sum` is the dot product of `input` with the first `n / 32` blocks of a Q4_0 quantized vector.
pub open spec fn is_q4_0_dot<T: Add<Output = T> + Mul<Output = T> + From<i8>, W: Fn(u16) -> T>(
    zero: T,
    input: Seq<T>,
    quantized: Seq<u8>,
    n: int,
    widen: W,
    sum: T,
) -> bool {
    exists|t: Seq<T>|
        t.len() == n / 32 && #[trigger] q4_0_terms(zero, input, quantized, widen, t)
            && crate::num::sum_of(zero, t, sum)
}

/// `sum` is the dot product of `input` with the first `n / 32` blocks of a Q5_0 quantized vector.
pub open spec fn is_q5_0_dot<T: Add<Output = T> + Mul<Output = T> + From<i8>, W: Fn(u16) -> T>(
    zero: T,
    input: Seq<T>,
    quantized: Seq<u8>,
    n: int,
    widen: W,
    sum: T,
) -> bool {
    exists|t: Seq<T>|
        t.len() == n / 32 && #[trigger] q5_0_terms(zero, input, quantized, widen, t)
            && crate::num::sum_of(zero, t, sum)
}

/// `sum` is the dot product of `input` with the first `n / 32` blocks of a Q8_0 quantized vector.
pub open spec fn is_q8_0_dot<T: Add<Output = T> + Mul<Output = T> + From<i8>, W: Fn(u16) -> T>(
    zero: T,
    input: Seq<T>,
    quantized: Seq<u8>,
    n: int,
    widen: W,
    sum: T,
) -> bool {
    exists|t: Seq<T>|
        t.len() == n / 32 && #[trigger] q8_0_terms(zero, input, quantized, widen, t)
            && crate::num::sum_of(zero, t, sum)
}

/// The elements that stand for the integers in `v`.
fn to_elements<T: Copy + From<i8>>(v: &Vec<i8>) -> (e: Vec<T>)
    ensures
        elements(v@, e@),
{
    let mut e: Vec<T> = Vec::new();
    let mut i: usize = 0;
    while i < v.len()
        invariant
            i <= v@.len(),
            e@.len() == i,
            forall|j: int| 0 <= j < i ==> is_element(v@[j], #[trigger] e@[j]),
        decreases v@.len() - i,
    {
        e.push(T::from(v[i]));
        i = i + 1;
    }
    e
}

/// The sum of the Q4_0 block at `start` of `quantized` against 32 elements.
fn q4_0_block_sum<T: Copy + Add<Output = T> + Mul<Output = T> + From<i8>>(
    x: &[T],
    quantized: &[u8],
    start: usize,
    zero: T,
) -> (s: T)
    requires
        x@.len() == 32,
        start + Q4_0_BLOCK_BYTES <= quantized@.len(),
        crate::num::total_add::<T>(),
        crate::num::total_mul::<T>(),
    ensures
        q4_0_sum(zero, x@, q4_0_block(quantized@, start as int), s),
{
    let v: Vec<i8> = q4_0_values(quantized, start);
    assert(v@ =~= q4_0_block(quantized@, start as int));
    let e: Vec<T> = to_elements(&v);
    let mut s: T = zero;
    let ghost mut t: Seq<T> = Seq::empty();
    proof {
        crate::num::lemma_sum_of_none(zero);
    }
    let mut i: usize = 0;
    while i < 16
        invariant
            i <= 16,
            x@.len() == 32,
            e@.len() == 32,
            crate::num::total_add::<T>(),
            crate::num::total_mul::<T>(),
            t.len() == 2 * i,
            forall|k: int|
                0 <= k < 2 * i ==> crate::num::is_product(
                    x@[q4_0_place(k)],
                    e@[q4_0_place(k)],
                    #[trigger] t[k],
                ),
            crate::num::sum_of(zero, t, s),
        decreases 16 - i,
    {
        let lo: T = x[i] * e[i];
        let ghost s0 = s;
        s = s + lo;
        let hi: T = x[i + 16] * e[i + 16];
        let ghost s1 = s;
        s = s + hi;
        proof {
            crate::num::lemma_sum_of_push(zero, t, s0, lo, s1);
            crate::num::lemma_sum_of_push(zero, t.push(lo), s1, hi, s);
            t = t.push(lo).push(hi);
        }
        i = i + 1;
    }
    assert(interleaved_products(x@, e@, t));
    s
}

/// The sum of the Q5_0 block at `start` of `quantized` against 32 elements.
fn q5_0_block_sum<T: Copy + Add<Output = T> + Mul<Output = T> + From<i8>>(
    x: &[T],
    quantized: &[u8],
    start: usize,
    zero: T,
) -> (s: T)
    requires
        x@.len() == 32,
        start + Q5_0_BLOCK_BYTES <= quantized@.len(),
        crate::num::total_add::<T>(),
        crate::num::total_mul::<T>(),
    ensures
        q5_0_sum(zero, x@, q5_0_block(quantized@, start as int), s),
{
    let v: Vec<i8> = q5_0_values(quantized, start);
    assert(v@ =~= q5_0_block(quantized@, start as int));
    let e: Vec<T> = to_elements(&v);
    let mut s: T = zero;
    let ghost mut lows: Seq<T> = Seq::empty();
    let ghost mut highs: Seq<T> = Seq::empty();
    let ghost mut t: Seq<T> = Seq::empty();
    proof {
        crate::num::lemma_sum_of_none(zero);
    }
    let mut i: usize = 0;
    while i < 16
        invariant
            i <= 16,
            x@.len() == 32,
            e@.len() == 32,
            crate::num::total_add::<T>(),
            crate::num::total_mul::<T>(),
            t.len() == i,
            lows.len() == i,
            highs.len() == i,
            forall|k: int| 0 <= k < i ==> crate::num::is_product(e@[k], x@[k], #[trigger] lows[k]),
            forall|k: int|
                0 <= k < i ==> crate::num::is_product(e@[k + 16], x@[k + 16], #[trigger] highs[k]),
            forall|k: int| 0 <= k < i ==> crate::num::is_sum(lows[k], highs[k], #[trigger] t[k]),
            crate::num::sum_of(zero, t, s),
        decreases 16 - i,
    {
        let lo: T = e[i] * x[i];
        let hi: T = e[i + 16] * x[i + 16];
        let both: T = lo + hi;
        let ghost s0 = s;
        s = s + both;
        proof {
            crate::num::lemma_sum_of_push(zero, t, s0, both, s);
            lows = lows.push(lo);
            highs = highs.push(hi);
            t = t.push(both);
        }
        i = i + 1;
    }
    proof {
        let p = lows + highs;
        assert forall|k: int| 0 <= k < 32 implies crate::num::is_product(
            e@[k],
            x@[k],
            #[trigger] p[k],
        ) by {
            if k >= 16 {
                assert(p[k] == highs[k - 16]);
            } else {
                assert(p[k] == lows[k]);
            }
        }
        assert forall|k: int| 0 <= k < 16 implies crate::num::is_sum(
            p[k],
            p[k + 16],
            #[trigger] t[k],
        ) by {
            assert(p[k] == lows[k]);
            assert(p[k + 16] == highs[k]);
        }
        assert(crate::num::products(e@, x@, p));
        assert(paired_sums(p, t));
    }
    s
}

/// The sum of the Q8_0 block at `start` of `quantized` against 32 elements.
fn q8_0_block_sum<T: Copy + Add<Output = T> + Mul<Output = T> + From<i8>>(
    x: &[T],
    quantized: &[u8],
    start: usize,
    zero: T,
) -> (s: T)
    requires
        x@.len() == 32,
        start + Q8_0_BLOCK_BYTES <= quantized@.len(),
        crate::num::total_add::<T>(),
        crate::num::total_mul::<T>(),
    ensures
        q8_0_sum(zero, x@, q8_0_block(quantized@, start as int), s),
{
    let v: Vec<i8> = q8_0_values(quantized, start);
    assert(v@ =~= q8_0_block(quantized@, start as int));
    let e: Vec<T> = to_elements(&v);
    crate::num::dot(x, e.as_slice(), zero)
}

/// Dot product of `input` with the first `n / 32` blocks of a Q4_0 quantized vector, without
/// dequantizing it first: each block's sum is multiplied by its scale. The blocks are added left
/// to right.
pub fn dot_q4_0<T: Copy + Add<Output = T> + Mul<Output = T> + From<i8>, W: Fn(u16) -> T>(
    input: &[T],
    quantized: &[u8],
    n: usize,
    zero: T,
    widen: W,
) -> (sum: T)
    requires
        32 * (n / 32) <= input@.len(),
        18 * (n / 32) <= quantized@.len(),
        forall|bits: u16| #[trigger] call_requires(widen, (bits,)),
        crate::num::total_add::<T>(),
        crate::num::total_mul::<T>(),
    ensures
        exists|t: Seq<T>|
            t.len() == n / 32 && #[trigger] q4_0_terms(zero, input@, quantized@, widen, t)
                && crate::num::sum_of(zero, t, sum),
        is_q4_0_dot(zero, input@, quantized@, n as int, widen, sum),
{
    let n_blocks: usize = n / Q4_0_BLOCK_SIZE;
    let input_len: usize = input.len();
    let quantized_len: usize = quantized.len();
    let mut sum: T = zero;
    let ghost mut t: Seq<T> = Seq::empty();
    proof {
        crate::num::lemma_sum_of_none(zero);
    }
    let mut b: usize = 0;
    while b < n_blocks
        invariant
            b <= n_blocks,
            input_len == input@.len(),
            quantized_len == quantized@.len(),
            32 * n_blocks <= input_len,
            18 * n_blocks <= quantized_len,
            forall|bits: u16| #[trigger] call_requires(widen, (bits,)),
            crate::num::total_add::<T>(),
            crate::num::total_mul::<T>(),
            t.len() == b,
            q4_0_terms(zero, input@, quantized@, widen, t),
            crate::num::sum_of(zero, t, sum),
        decreases n_blocks - b,
    {
        let start: usize = b * Q4_0_BLOCK_BYTES;
        let scale: T = widen(crate::le::get_u16(quantized, start));
        let first: usize = b * Q4_0_BLOCK_SIZE;
        let block_sum: T = q4_0_block_sum(&input[first..first + 32], quantized, start, zero);
        let term: T = block_sum * scale;
        let ghost before = sum;
        sum = sum + term;
        proof {
            crate::num::lemma_sum_of_push(zero, t, before, term, sum);
            assert(block_of(input@, b as int) =~= input@.subrange(first as int, first + 32));
            assert(crate::num::is_product(block_sum, scale, term));
            assert(q4_0_term(zero, input@, quantized@, widen, b as int, term));
            t = t.push(term);
        }
        b = b + 1;
    }
    sum
}

/// Dot product of `input` with the first `n / 32` blocks of a Q5_0 quantized vector, without
/// dequantizing it first: each block's scale is multiplied by its sum. The blocks are added left
/// to right.
pub fn dot_q5_0<T: Copy + Add<Output = T> + Mul<Output = T> + From<i8>, W: Fn(u16) -> T>(
    input: &[T],
    quantized: &[u8],
    n: usize,
    zero: T,
    widen: W,
) -> (sum: T)
    requires
        32 * (n / 32) <= input@.len(),
        22 * (n / 32) <= quantized@.len(),
        forall|bits: u16| #[trigger] call_requires(widen, (bits,)),
        crate::num::total_add::<T>(),
        crate::num::total_mul::<T>(),
    ensures
        exists|t: Seq<T>|
            t.len() == n / 32 && #[trigger] q5_0_terms(zero, input@, quantized@, widen, t)
                && crate::num::sum_of(zero, t, sum),
        is_q5_0_dot(zero, input@, quantized@, n as int, widen, sum),
{
    let n_blocks: usize = n / Q5_0_BLOCK_SIZE;
    let input_len: usize = input.len();
    let quantized_len: usize = quantized.len();
    let mut sum: T = zero;
    let ghost mut t: Seq<T> = Seq::empty();
    proof {
        crate::num::lemma_sum_of_none(zero);
    }
    let mut b: usize = 0;
    while b < n_blocks
        invariant
            b <= n_blocks,
            input_len == input@.len(),
            quantized_len == quantized@.len(),
            32 * n_blocks <= input_len,
            22 * n_blocks <= quantized_len,
            forall|bits: u16| #[trigger] call_requires(widen, (bits,)),
            crate::num::total_add::<T>(),
            crate::num::total_mul::<T>(),
            t.len() == b,
            q5_0_terms(zero, input@, quantized@, widen, t),
            crate::num::sum_of(zero, t, sum),
        decreases n_blocks - b,
    {
        let start: usize = b * Q5_0_BLOCK_BYTES;
        let scale: T = widen(crate::le::get_u16(quantized, start));
        let first: usize = b * Q5_0_BLOCK_SIZE;
        let block_sum: T = q5_0_block_sum(&input[first..first + 32], quantized, start, zero);
        let term: T = scale * block_sum;
        let ghost before = sum;
        sum = sum + term;
        proof {
            crate::num::lemma_sum_of_push(zero, t, before, term, sum);
            assert(block_of(input@, b as int) =~= input@.subrange(first as int, first + 32));
            assert(crate::num::is_product(scale, block_sum, term));
            assert(q5_0_term(zero, input@, quantized@, widen, b as int, term));
            t = t.push(term);
        }
        b = b + 1;
    }
    sum
}

/// Dot product of `input` with the first `n / 32` blocks of a Q8_0 quantized vector, without
/// dequantizing it first: each block's sum is multiplied by its scale. The blocks are added left
/// to right.
pub fn dot_q8_0<T: Copy + Add<Output = T> + Mul<Output = T> + From<i8>, W: Fn(u16) -> T>(
    input: &[T],
    quantized: &[u8],
    n: usize,
    zero: T,
    widen: W,
) -> (sum: T)
    requires
        32 * (n / 32) <= input@.len(),
        34 * (n / 32) <= quantized@.len(),
        forall|bits: u16| #[trigger] call_requires(widen, (bits,)),
        crate::num::total_add::<T>(),
        crate::num::total_mul::<T>(),
    ensures
        exists|t: Seq<T>|
            t.len() == n / 32 && #[trigger] q8_0_terms(zero, input@, quantized@, widen, t)
                && crate::num::sum_of(zero, t, sum),
        is_q8_0_dot(zero, input@, quantized@, n as int, widen, sum),
{
    let n_blocks: usize = n / Q8_0_BLOCK_SIZE;
    let input_len: usize = input.len();
    let quantized_len: usize = quantized.len();
    let mut sum: T = zero;
    let ghost mut t: Seq<T> = Seq::empty();
    proof {
        crate::num::lemma_sum_of_none(zero);
    }
    let mut b: usize = 0;
    while b < n_blocks
        invariant
            b <= n_blocks,
            input_len == input@.len(),
            quantized_len == quantized@.len(),
            32 * n_blocks <= input_len,
            34 * n_blocks <= quantized_len,
            forall|bits: u16| #[trigger] call_requires(widen, (bits,)),
            crate::num::total_add::<T>(),
            crate::num::total_mul::<T>(),
            t.len() == b,
            q8_0_terms(zero, input@, quantized@, widen, t),
            crate::num::sum_of(zero, t, sum),
        decreases n_blocks - b,
    {
        let start: usize = b * Q8_0_BLOCK_BYTES;
        let scale: T = widen(crate::le::get_u16(quantized, start));
        let first: usize = b * Q8_0_BLOCK_SIZE;
        let block_sum: T = q8_0_block_sum(&input[first..first + 32], quantized, start, zero);
        let term: T = block_sum * scale;
        let ghost before = sum;
        sum = sum + term;
        proof {
            crate::num::lemma_sum_of_push(zero, t, before, term, sum);
            assert(block_of(input@, b as int) =~= input@.subrange(first as int, first + 32));
            assert(crate::num::is_product(block_sum, scale, term));
            assert(q8_0_term(zero, input@, quantized@, widen, b as int, term));
            t = t.push(term);
        }
        b = b + 1;
    }
    sum
}

/// The values of a block have their range: -8 to 7 for Q4_0, -16 to 15 for Q5_0, -128 to 127 for
/// Q8_0.
pub proof fn law_values_have_their_range(q: Seq<u8>, start: int, i: int)
    ensures
        -8 <= q4_0_value(q, start, i) <= 7,
        -16 <= q5_0_value(q, start, i) <= 15,
        -128 <= q8_0_value(q, start, i) <= 127,
{
}

} // verus!
