//! What single-precision bit patterns stand for.

use crate::bits;
use vstd::prelude::*;

verus! {

/// The size of the number that the lower 31 bits of a pattern stand for, counted in units of the
/// smallest one: the fraction where the exponent is zero, else the fraction with a leading one,
/// doubled as often as the exponent exceeds one. Infinity counts as the number that would follow the
/// largest one.
pub open spec fn size_in_units(m: int) -> int {
    let exponent = m / 0x80_0000;
    let fraction = m % 0x80_0000;
    if exponent == 0 {
        fraction
    } else {
        (0x80_0000 + fraction) * vstd::arithmetic::power2::pow2((exponent - 1) as nat)
    }
}

/// The number that a pattern stands for, in units of the smallest one: negative where the highest
/// bit is set.
pub open spec fn in_units(b: u32) -> int {
    if b < 0x8000_0000 {
        size_in_units(b as int)
    } else {
        -size_in_units(b - 0x8000_0000)
    }
}

/// Larger patterns have larger sizes.
proof fn lemma_sizes(m: int, n: int)
    requires
        0 <= m < n < 0x8000_0000,
    ensures
        0 <= size_in_units(m) < size_in_units(n),
{
    let e = m / 0x80_0000;
    let f = n / 0x80_0000;
    let x = m % 0x80_0000;
    let y = n % 0x80_0000;
    if e > 0 {
        vstd::arithmetic::power2::lemma_pow2_pos((e - 1) as nat);
        let p = vstd::arithmetic::power2::pow2((e - 1) as nat) as int;
        assert(0 <= (0x80_0000 + x) * p) by (nonlinear_arith)
            requires
                0 <= x,
                p > 0,
        ;
    }
    if e == f {
        assert(x < y);
        if e > 0 {
            let p = vstd::arithmetic::power2::pow2((e - 1) as nat) as int;
            assert((0x80_0000 + x) * p < (0x80_0000 + y) * p) by (nonlinear_arith)
                requires
                    x < y,
                    p > 0,
            ;
        }
    } else {
        vstd::arithmetic::power2::lemma_pow2_pos((f - 1) as nat);
        let q = vstd::arithmetic::power2::pow2((f - 1) as nat) as int;
        assert(q >= 1);
        assert((0x80_0000 + y) * q >= 0x80_0000 * q) by (nonlinear_arith)
            requires
                0 <= y,
                q > 0,
        ;
        if e == 0 {
            assert(0x80_0000 * q >= 0x80_0000) by (nonlinear_arith)
                requires
                    q >= 1,
            ;
        } else {
            let p = vstd::arithmetic::power2::pow2((e - 1) as nat) as int;
            vstd::arithmetic::power2::lemma_pow2_unfold(e as nat);
            if e < f - 1 {
                vstd::arithmetic::power2::lemma_pow2_strictly_increases(e as nat, (f - 1) as nat);
            }
            assert(2 * p <= q);
            assert((0x80_0000 + x) * p < 0x80_0000 * q) by (nonlinear_arith)
                requires
                    0 <= x < 0x80_0000,
                    p > 0,
                    2 * p <= q,
            ;
        }
    }
}

/// Bit patterns are compared as the numbers that they stand for: the rank of one is below that of
/// another exactly where its number is.
pub proof fn law_ranks_order_numbers(a: u32, b: u32)
    ensures
        bits::rank(a) < bits::rank(b) <==> in_units(a) < in_units(b),
        bits::rank(a) == bits::rank(b) <==> in_units(a) == in_units(b),
        bits::above(a, b) <==> !bits::is_nan(a) && !bits::is_nan(b) && in_units(a) > in_units(b),
        bits::is_zero(a) <==> in_units(a) == 0,
{
    let m = if a < 0x8000_0000 {
        a as int
    } else {
        a - 0x8000_0000
    };
    let n = if b < 0x8000_0000 {
        b as int
    } else {
        b - 0x8000_0000
    };
    assert(size_in_units(0) == 0);
    if 0 < m {
        lemma_sizes(0, m);
    }
    if 0 < n {
        lemma_sizes(0, n);
    }
    if m < n {
        lemma_sizes(m, n);
    }
    if n < m {
        lemma_sizes(n, m);
    }
}

/// A pattern stands for no number exactly where its exponent is all ones and its fraction is not
/// zero.
pub proof fn law_nan_has_full_exponent(b: u32)
    ensures
        bits::is_nan(b) <==> b as int % 0x8000_0000 / 0x80_0000 == 255 && b as int % 0x80_0000 != 0,
{
}

/// The distance of two numbers.
pub open spec fn distance(a: int, b: int) -> int {
    if a < b {
        b - a
    } else {
        a - b
    }
}

/// Limiting gives the nearest number between minus one and one: it lies in that range, and no other
/// number of the range is nearer to what is limited. What is not a number gives zero.
pub proof fn law_limited_is_nearest(b: u32, c: u32)
    requires
        !bits::is_nan(c),
        in_units(0xBF80_0000) <= in_units(c) <= in_units(0x3F80_0000),
    ensures
        in_units(0xBF80_0000) <= in_units(bits::limited(b)) <= in_units(0x3F80_0000),
        !bits::is_nan(bits::limited(b)),
        bits::is_nan(b) ==> in_units(bits::limited(b)) == 0,
        !bits::is_nan(b) ==> distance(in_units(b), in_units(bits::limited(b))) <= distance(
            in_units(b),
            in_units(c),
        ),
{
    let one: u32 = 0x3F80_0000;
    let minus: u32 = 0xBF80_0000;
    law_ranks_order_numbers(b, one);
    law_ranks_order_numbers(b, minus);
    law_ranks_order_numbers(one, b);
    law_ranks_order_numbers(minus, b);
    law_ranks_order_numbers(0, one);
    law_ranks_order_numbers(minus, 0);
    law_ranks_order_numbers(minus, one);
    assert(in_units(0) == 0);
}

/// The constants are the numbers that they are named after: as multiples of one, zero, one half,
/// one, minus one, two, four and eight.
pub proof fn law_constants_are_their_numbers()
    ensures
        in_units(bits::ONE_BITS) == vstd::arithmetic::power2::pow2(149),
        in_units(bits::ZERO_BITS) == 0,
        2 * in_units(bits::HALF_BITS) == in_units(bits::ONE_BITS),
        in_units(bits::MINUS_ONE) == -in_units(bits::ONE_BITS),
        in_units(bits::TWO_BITS) == 2 * in_units(bits::ONE_BITS),
        in_units(bits::FOUR_BITS) == 4 * in_units(bits::ONE_BITS),
        in_units(bits::EIGHT_BITS) == 8 * in_units(bits::ONE_BITS),
        forall|b: u32|
            !bits::is_nan(b) ==> in_units(bits::NEG_INFINITY) <= #[trigger] in_units(b),
{
    vstd::arithmetic::power2::lemma2_to64();
    vstd::arithmetic::power2::lemma_pow2_adds(23, 126);
    vstd::arithmetic::power2::lemma_pow2_unfold(126);
    vstd::arithmetic::power2::lemma_pow2_unfold(127);
    vstd::arithmetic::power2::lemma_pow2_unfold(128);
    vstd::arithmetic::power2::lemma_pow2_unfold(129);
    let p = vstd::arithmetic::power2::pow2(126) as int;
    assert(in_units(bits::ONE_BITS) == 0x80_0000 * p);
    assert(in_units(bits::HALF_BITS) == 0x80_0000 * vstd::arithmetic::power2::pow2(125));
    assert(in_units(bits::TWO_BITS) == 0x80_0000 * vstd::arithmetic::power2::pow2(127));
    assert(in_units(bits::FOUR_BITS) == 0x80_0000 * vstd::arithmetic::power2::pow2(128));
    assert(in_units(bits::EIGHT_BITS) == 0x80_0000 * vstd::arithmetic::power2::pow2(129));
    assert forall|b: u32| !bits::is_nan(b) implies in_units(bits::NEG_INFINITY)
        <= #[trigger] in_units(b) by {
        law_ranks_order_numbers(bits::NEG_INFINITY, b);
        law_ranks_order_numbers(b, bits::NEG_INFINITY);
    }
}

} // verus!
