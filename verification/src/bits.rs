//! The order of single-precision numbers, by their bit patterns.

pub mod laws;

use vstd::prelude::*;

verus! {

/// Bit pattern of negative infinity.
pub const NEG_INFINITY: u32 = 0xFF80_0000;

/// Whether a bit pattern stands for no number: exponent all ones, fraction not zero.
pub open spec fn is_nan(b: u32) -> bool {
    b % 0x8000_0000 > 0x7F80_0000
}

/// A number that orders bit patterns as the numbers they stand for: the sign bit turns the rest
/// around, and both zeros are equal.
pub open spec fn rank(b: u32) -> int {
    if b < 0x8000_0000 {
        b as int
    } else {
        0x8000_0000 - b
    }
}

/// Whether `a` stands for a greater number than `b`.
pub open spec fn above(a: u32, b: u32) -> bool {
    !is_nan(a) && !is_nan(b) && rank(a) > rank(b)
}

/// Whether a bit pattern stands for zero, of either sign.
pub open spec fn is_zero(b: u32) -> bool {
    rank(b) == 0
}

/// Bit pattern of the number zero.
pub const ZERO_BITS: u32 = 0;

/// Bit pattern of the number one half.
pub const HALF_BITS: u32 = 0x3F00_0000;

/// Bit pattern of the number two.
pub const TWO_BITS: u32 = 0x4000_0000;

/// Bit pattern of the number four.
pub const FOUR_BITS: u32 = 0x4080_0000;

/// Bit pattern of the number eight.
pub const EIGHT_BITS: u32 = 0x4100_0000;

/// Bit pattern of half the circumference of the unit circle.
pub const PI_BITS: u32 = 0x4049_0FDB;

/// Bit pattern of the number one.
pub const ONE_BITS: u32 = 0x3F80_0000;

/// Bit pattern of the number minus one.
pub const MINUS_ONE: u32 = 0xBF80_0000;

/// Whether a bit pattern stands for a number between minus one and one.
pub open spec fn in_unit_range(b: u32) -> bool {
    !is_nan(b) && rank(MINUS_ONE) <= rank(b) <= rank(ONE_BITS)
}

/// The number between minus one and one that is nearest to that of a bit pattern. What is not a
/// number gives zero.
pub open spec fn limited(b: u32) -> u32 {
    if is_nan(b) {
        0
    } else if rank(b) > rank(ONE_BITS) {
        ONE_BITS
    } else if rank(b) < rank(MINUS_ONE) {
        MINUS_ONE
    } else {
        b
    }
}

/// Executable form of [`limited`].
pub fn limit(b: u32) -> (r: u32)
    ensures
        r == limited(b),
        in_unit_range(r),
{
    if not_a_number(b) {
        0
    } else if is_above(b, ONE_BITS) {
        ONE_BITS
    } else if is_above(MINUS_ONE, b) {
        MINUS_ONE
    } else {
        b
    }
}

/// Whether a bit pattern stands for no number.
pub fn not_a_number(b: u32) -> (r: bool)
    ensures
        r == is_nan(b),
{
    b % 0x8000_0000 > 0x7F80_0000
}

/// Executable form of [`rank`].
pub fn get_rank(b: u32) -> (r: i64)
    ensures
        r == rank(b),
{
    if b < 0x8000_0000 {
        b as i64
    } else {
        0x8000_0000 - b as i64
    }
}

/// Executable form of [`above`].
pub fn is_above(a: u32, b: u32) -> (r: bool)
    ensures
        r == above(a, b),
{
    !not_a_number(a) && !not_a_number(b) && get_rank(a) > get_rank(b)
}

/// `bits` holds the bit patterns of `x`.
pub open spec fn are_bits<T, B: Fn(T) -> u32>(to_bits: B, x: Seq<T>, bits: Seq<u32>) -> bool {
    &&& bits.len() == x.len()
    &&& forall|i: int| 0 <= i < bits.len() ==> call_ensures(to_bits, (x[i],), #[trigger] bits[i])
}

/// The bit patterns of `x`.
pub fn bits_of<T: Copy, B: Fn(T) -> u32>(to_bits: &B, x: &[T]) -> (bits: Vec<u32>)
    requires
        forall|a: T| #[trigger] call_requires(*to_bits, (a,)),
    ensures
        are_bits(*to_bits, x@, bits@),
{
    let mut bits: Vec<u32> = Vec::with_capacity(x.len());
    let mut i: usize = 0;
    while i < x.len()
        invariant
            i <= x@.len(),
            forall|a: T| #[trigger] call_requires(*to_bits, (a,)),
            bits@.len() == i,
            forall|j: int| 0 <= j < i ==> call_ensures(*to_bits, (x@[j],), #[trigger] bits@[j]),
        decreases x@.len() - i,
    {
        bits.push(to_bits(x[i]));
        i = i + 1;
    }
    bits
}

/// `x` holds the numbers of bit patterns.
pub open spec fn are_numbers<T, F: Fn(u32) -> T>(from_bits: F, bits: Seq<u32>, x: Seq<T>) -> bool {
    &&& x.len() == bits.len()
    &&& forall|i: int| 0 <= i < x.len() ==> call_ensures(from_bits, (bits[i],), #[trigger] x[i])
}

/// The numbers of bit patterns.
pub fn numbers_of<T: Copy, F: Fn(u32) -> T>(from_bits: &F, bits: &[u32]) -> (x: Vec<T>)
    requires
        forall|b: u32| #[trigger] call_requires(*from_bits, (b,)),
    ensures
        are_numbers(*from_bits, bits@, x@),
{
    let mut x: Vec<T> = Vec::with_capacity(bits.len());
    let mut i: usize = 0;
    while i < bits.len()
        invariant
            i <= bits@.len(),
            forall|b: u32| #[trigger] call_requires(*from_bits, (b,)),
            x@.len() == i,
            forall|j: int| 0 <= j < i ==> call_ensures(*from_bits, (bits@[j],), #[trigger] x@[j]),
        decreases bits@.len() - i,
    {
        x.push(from_bits(bits[i]));
        i = i + 1;
    }
    x
}

/// The place where a walk from left to right ends that moves on to each element which the
/// present one is not above.
pub open spec fn leader(s: Seq<u32>) -> int
    decreases s.len(),
{
    if s.len() <= 1 {
        0
    } else {
        let p = leader(s.drop_last());
        if above(s[p], s.last()) {
            p
        } else {
            s.len() - 1
        }
    }
}

/// Executable form of [`leader`].
pub fn find_leader(s: &[u32]) -> (p: usize)
    ensures
        p == leader(s@),
        s@.len() > 0 ==> p < s@.len(),
{
    let mut p: usize = 0;
    let mut i: usize = 1;
    while i < s.len()
        invariant
            s@.len() > 0 ==> p < i,
            s@.len() > 0 ==> 1 <= i <= s@.len(),
            s@.len() > 0 ==> p == leader(s@.take(i as int)),
            s@.len() == 0 ==> p == 0,
        decreases s@.len() - i,
    {
        assert(s@.take(i + 1).drop_last() =~= s@.take(i as int));
        assert(s@.take(i + 1).last() == s@[i as int]);
        assert(s@.take(i + 1)[p as int] == s@[p as int]);
        if !is_above(s[p], s[i]) {
            p = i;
        }
        i = i + 1;
    }
    if s.len() > 0 {
        assert(s@.take(i as int) =~= s@);
    }
    p
}

/// Where all elements are numbers, the leader is the last one of the greatest.
pub proof fn law_leader_is_last_maximum(s: Seq<u32>, i: int)
    requires
        forall|j: int| 0 <= j < s.len() ==> !is_nan(#[trigger] s[j]),
        0 <= i < s.len(),
    ensures
        0 <= leader(s) < s.len(),
        rank(s[i]) <= rank(s[leader(s)]),
        i > leader(s) ==> rank(s[i]) < rank(s[leader(s)]),
    decreases s.len(),
{
    if s.len() > 1 {
        let shorter = s.drop_last();
        assert forall|j: int| 0 <= j < shorter.len() implies !is_nan(#[trigger] shorter[j]) by {
            assert(shorter[j] == s[j]);
        }
        law_leader_is_last_maximum(shorter, if i < shorter.len() {
            i
        } else {
            0
        });
        assert(!is_nan(s[s.len() - 1]));
        assert(!is_nan(s[leader(shorter)]));
    }
}

} // verus!
