//! GGUF files: alignment of tensor data.

use vstd::prelude::*;

verus! {

/// The least multiple of `alignment` at or above `offset`.
pub open spec fn aligned(offset: int, alignment: int) -> int {
    if offset % alignment == 0 {
        offset
    } else {
        offset + (alignment - offset % alignment)
    }
}

/// Rounds `offset` up to a multiple of `alignment`; an alignment of 0 leaves it.
pub fn align_offset(offset: u64, alignment: u64) -> (r: u64)
    requires
        alignment > 0 ==> aligned(offset as int, alignment as int) <= u64::MAX,
    ensures
        r == if alignment == 0 {
            offset as int
        } else {
            aligned(offset as int, alignment as int)
        },
{
    if alignment == 0 {
        return offset;
    }
    let rest: u64 = offset % alignment;
    if rest == 0 {
        offset
    } else {
        offset + (alignment - rest)
    }
}

/// An aligned offset is a multiple of the alignment, at or above the offset, and less than one
/// alignment away.
pub proof fn law_aligned_is_next_multiple(offset: int, alignment: int)
    requires
        0 <= offset,
        0 < alignment,
    ensures
        aligned(offset, alignment) % alignment == 0,
        offset <= aligned(offset, alignment) < offset + alignment,
{
    let rest = offset % alignment;
    if rest != 0 {
        assert((offset + (alignment - rest)) % alignment == 0) by (nonlinear_arith)
            requires
                0 < alignment,
                rest == offset % alignment,
        {
            let q = offset / alignment;
            assert(offset == q * alignment + rest);
            assert(offset + (alignment - rest) == (q + 1) * alignment);
            assert(((q + 1) * alignment) % alignment == 0);
        }
    }
}

/// What rounding an offset up gives is a multiple of the alignment, and no smaller multiple lies at or
/// above the offset; an alignment of 0 leaves the offset.
pub proof fn law_offset_is_rounded_up(offset: u64, alignment: u64, r: u64, other: int)
    requires
        call_ensures(align_offset, (offset, alignment), r),
    ensures
        alignment == 0 ==> r == offset,
        alignment > 0 ==> r as int % alignment as int == 0,
        alignment > 0 && other >= offset && other % alignment as int == 0 ==> offset <= r <= other,
{
    if alignment > 0 {
        let a = alignment as int;
        let x = r as int;
        law_aligned_is_next_multiple(offset as int, a);
        if other >= offset && other % a == 0 && other < x {
            assert(x - other < a);
            assert(false) by (nonlinear_arith)
                requires
                    x % a == 0,
                    other % a == 0,
                    a > 0,
                    other < x,
                    x - other < a,
            {
                let p = x / a;
                let q = other / a;
                assert(x == p * a && other == q * a);
                assert((p - q) * a == x - other);
            }
        }
    }
}

} // verus!
