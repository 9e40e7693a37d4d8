//! Turning blocks of quantized integers into elements.

use crate::quantize::dot_scalar::{q4_0_values, q5_0_values, q8_0_values};
use crate::quantize::types::QuantType;
use core::ops::Mul;
use vstd::prelude::*;

verus! {

/// The 32 integers of the block at `start`.
pub open spec fn block_values(qtype: QuantType, q: Seq<u8>, start: int) -> Seq<i8> {
    match qtype {
        QuantType::Q4_0 => crate::quantize::dot_scalar::q4_0_block(q, start),
        QuantType::Q5_0 => crate::quantize::dot_scalar::q5_0_block(q, start),
        QuantType::Q8_0 => crate::quantize::dot_scalar::q8_0_block(q, start),
    }
}

/// `x` is the element of the integer `v` times the scale of the block at `start`.
pub open spec fn is_scaled<T: Mul<Output = T> + From<i8>, W: Fn(u16) -> T>(
    widen: W,
    q: Seq<u8>,
    start: int,
    v: i8,
    x: T,
) -> bool {
    exists|e: T, c: T| #[trigger]
        crate::num::is_product(e, c, x) && crate::quantize::dot_scalar::is_element(v, e)
            && crate::quantize::dot_scalar::is_scale(widen, q, start, c)
}

/// `x` holds the elements of the first blocks of `q`: element `k` belongs to block `k / 32`.
pub open spec fn are_dequantized<T: Mul<Output = T> + From<i8>, W: Fn(u16) -> T>(
    qtype: QuantType,
    widen: W,
    q: Seq<u8>,
    x: Seq<T>,
) -> bool {
    forall|k: int|
        0 <= k < x.len() ==> is_scaled(
            widen,
            q,
            k / 32 * qtype.bytes_per_block(),
            block_values(qtype, q, k / 32 * qtype.bytes_per_block())[k % 32],
            #[trigger] x[k],
        )
}

/// The integers of the block at `start`.
fn get_block(qtype: QuantType, q: &[u8], start: usize) -> (v: Vec<i8>)
    requires
        start + qtype.bytes_per_block() <= q@.len(),
    ensures
        v@ == block_values(qtype, q@, start as int),
{
    let v: Vec<i8> = match qtype {
        QuantType::Q4_0 => q4_0_values(q, start),
        QuantType::Q5_0 => q5_0_values(q, start),
        QuantType::Q8_0 => q8_0_values(q, start),
    };
    assert(v@ =~= block_values(qtype, q@, start as int));
    v
}

/// Dequantizes the first `n / 32` blocks of `q`; `widen` gives the element of a scale's
/// half-precision bits.
pub fn dequantize<T: Copy + Mul<Output = T> + From<i8>, W: Fn(u16) -> T>(
    qtype: QuantType,
    q: &[u8],
    n: usize,
    widen: &W,
) -> (x: Vec<T>)
    requires
        n / 32 * qtype.bytes_per_block() <= q@.len(),
        forall|bits: u16| #[trigger] call_requires(*widen, (bits,)),
        crate::num::total_mul::<T>(),
    ensures
        x@.len() == 32 * (n / 32),
        are_dequantized(qtype, *widen, q@, x@),
{
    let len: usize = q.len();
    let bytes: usize = match qtype {
        QuantType::Q4_0 => 18,
        QuantType::Q5_0 => 22,
        QuantType::Q8_0 => 34,
    };
    let n_blocks: usize = n / 32;
    let mut x: Vec<T> = Vec::with_capacity(n);
    let mut b: usize = 0;
    while b < n_blocks
        invariant
            b <= n_blocks,
            n_blocks == n / 32,
            bytes == qtype.bytes_per_block(),
            len == q@.len(),
            n_blocks * bytes <= len,
            forall|bits: u16| #[trigger] call_requires(*widen, (bits,)),
            crate::num::total_mul::<T>(),
            x@.len() == 32 * b,
            are_dequantized(qtype, *widen, q@, x@),
        decreases n_blocks - b,
    {
        proof {
            assert(0 <= b * bytes && b * bytes + bytes <= n_blocks * bytes) by (nonlinear_arith)
                requires
                    0 <= b < n_blocks,
                    0 <= bytes,
            ;
        }
        let start: usize = b * bytes;
        let scale: T = widen(crate::le::get_u16(q, start));
        let v: Vec<i8> = get_block(qtype, q, start);
        let mut i: usize = 0;
        while i < 32
            invariant
                i <= 32,
                b < n_blocks,
                bytes == qtype.bytes_per_block(),
                start == b * bytes,
                v@ == block_values(qtype, q@, start as int),
                v@.len() == 32,
                crate::quantize::dot_scalar::is_scale(*widen, q@, start as int, scale),
                crate::num::total_mul::<T>(),
                x@.len() == 32 * b + i,
                are_dequantized(qtype, *widen, q@, x@),
            decreases 32 - i,
        {
            let e: T = T::from(v[i]);
            let y: T = e * scale;
            proof {
                let k = 32 * b + i;
                assert(k / 32 == b && k % 32 == i);
                assert(crate::num::is_product(e, scale, y));
                assert(is_scaled(*widen, q@, start as int, v@[i as int], y));
            }
            x.push(y);
            i = i + 1;
        }
        b = b + 1;
    }
    x
}

} // verus!
