//! Little-endian integers inside byte sequences.

use vstd::prelude::*;

verus! {

/// Whether `n` bytes can be read at `pos`.
pub open spec fn available(b: Seq<u8>, pos: int, n: int) -> bool {
    0 <= pos && pos + n <= b.len()
}

/// The unsigned 16-bit integer at `pos`.
pub open spec fn u16_at(b: Seq<u8>, pos: int) -> u16 {
    (b[pos] + 0x100 * b[pos + 1]) as u16
}

/// The unsigned 32-bit integer at `pos`.
pub open spec fn u32_at(b: Seq<u8>, pos: int) -> u32 {
    (b[pos] + 0x100 * b[pos + 1] + 0x1_0000 * b[pos + 2] + 0x100_0000 * b[pos + 3]) as u32
}

/// The two's complement reading of `n` as an integer of `bits` = log2(`range`) bits.
pub open spec fn signed(n: int, range: int) -> int {
    if 2 * n < range {
        n
    } else {
        n - range
    }
}

/// The signed 32-bit integer at `pos`.
pub open spec fn i32_at(b: Seq<u8>, pos: int) -> i32 {
    signed(u32_at(b, pos) as int, 0x1_0000_0000) as i32
}

/// The signed 24-bit integer at `pos`.
pub open spec fn i24_at(b: Seq<u8>, pos: int) -> i32 {
    signed(b[pos] + 0x100 * b[pos + 1] + 0x1_0000 * b[pos + 2], 0x100_0000) as i32
}

/// Whether `n` more bytes are present at `pos`.
pub fn has_bytes(b: &[u8], pos: usize, n: usize) -> (r: bool)
    ensures
        r == available(b@, pos as int, n as int),
{
    n <= b.len() && pos <= b.len() - n
}

/// Reads the unsigned 16-bit integer at `pos`.
pub fn get_u16(b: &[u8], pos: usize) -> (r: u16)
    requires
        available(b@, pos as int, 2),
    ensures
        r == u16_at(b@, pos as int),
{
    b[pos] as u16 + 0x100 * (b[pos + 1] as u16)
}

/// Reads the unsigned 32-bit integer at `pos`.
pub fn get_u32(b: &[u8], pos: usize) -> (r: u32)
    requires
        available(b@, pos as int, 4),
    ensures
        r == u32_at(b@, pos as int),
{
    b[pos] as u32 + 0x100 * (b[pos + 1] as u32) + 0x1_0000 * (b[pos + 2] as u32) + 0x100_0000 * (
    b[pos + 3] as u32)
}

/// Reinterprets an unsigned 32-bit integer as a signed one.
pub fn to_signed(u: u32) -> (r: i32)
    ensures
        r == signed(u as int, 0x1_0000_0000),
{
    if u < 0x8000_0000 {
        u as i32
    } else {
        (u - 0x8000_0000) as i32 + i32::MIN
    }
}

/// Reads the signed 32-bit integer at `pos`.
pub fn get_i32(b: &[u8], pos: usize) -> (r: i32)
    requires
        available(b@, pos as int, 4),
    ensures
        r == i32_at(b@, pos as int),
{
    to_signed(get_u32(b, pos))
}

/// Reads the signed 24-bit integer at `pos`.
pub fn get_i24(b: &[u8], pos: usize) -> (r: i32)
    requires
        available(b@, pos as int, 3),
    ensures
        r == i24_at(b@, pos as int),
{
    let u: i32 = b[pos] as i32 + 0x100 * (b[pos + 1] as i32) + 0x1_0000 * (b[pos + 2] as i32);
    if u < 0x80_0000 {
        u
    } else {
        u - 0x100_0000
    }
}

/// The four bytes of an unsigned 32-bit integer.
pub open spec fn u32_bytes(v: u32) -> Seq<u8> {
    seq![
        (v % 0x100) as u8,
        (v / 0x100 % 0x100) as u8,
        (v / 0x1_0000 % 0x100) as u8,
        (v / 0x100_0000) as u8,
    ]
}

/// The two bytes of an unsigned 16-bit integer.
pub open spec fn u16_bytes(v: u16) -> Seq<u8> {
    seq![(v % 0x100) as u8, (v / 0x100) as u8]
}

/// The four bytes of a signed 32-bit integer.
pub open spec fn i32_bytes(v: i32) -> Seq<u8> {
    u32_bytes((if v < 0 { v + 0x1_0000_0000 } else { v as int }) as u32)
}

/// Reading back the bytes of an integer, wherever they stand, gives the integer.
pub proof fn read_back_u32(b: Seq<u8>, pos: int, v: u32)
    requires
        available(b, pos, 4),
        b.subrange(pos, pos + 4) == u32_bytes(v),
    ensures
        u32_at(b, pos) == v,
{
    let s = b.subrange(pos, pos + 4);
    assert(s[0] == b[pos] && s[1] == b[pos + 1] && s[2] == b[pos + 2] && s[3] == b[pos + 3]);
}

/// Reading back the bytes of an integer, wherever they stand, gives the integer.
pub proof fn read_back_u16(b: Seq<u8>, pos: int, v: u16)
    requires
        available(b, pos, 2),
        b.subrange(pos, pos + 2) == u16_bytes(v),
    ensures
        u16_at(b, pos) == v,
{
    let s = b.subrange(pos, pos + 2);
    assert(s[0] == b[pos] && s[1] == b[pos + 1]);
}

/// Reading back the bytes of an integer, wherever they stand, gives the integer.
pub proof fn read_back_i32(b: Seq<u8>, pos: int, v: i32)
    requires
        available(b, pos, 4),
        b.subrange(pos, pos + 4) == i32_bytes(v),
    ensures
        i32_at(b, pos) == v,
{
    read_back_u32(b, pos, (if v < 0 { v + 0x1_0000_0000 } else { v as int }) as u32);
}

} // verus!
