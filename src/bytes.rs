//! Little-endian integers read from byte sequences.
use vstd::prelude::*;

verus! {

/// The unsigned 16-bit little-endian value at `i`.
pub open spec fn le_u16(s: Seq<u8>, i: int) -> int {
    s[i] as int + 256 * (s[i + 1] as int)
}

/// The unsigned 32-bit little-endian value at `i`.
pub open spec fn le_u32(s: Seq<u8>, i: int) -> int {
    le_u16(s, i) + 65536 * le_u16(s, i + 2)
}

/// The two's-complement signed 32-bit little-endian value at `i`.
pub open spec fn le_i32(s: Seq<u8>, i: int) -> int {
    if le_u32(s, i) < 0x8000_0000 {
        le_u32(s, i)
    } else {
        le_u32(s, i) - 0x1_0000_0000
    }
}

pub fn read_u16_le(b: &[u8], i: usize) -> (r: u16)
    requires
        i + 2 <= b@.len(),
    ensures
        r as int == le_u16(b@, i as int),
{
    let lo = b[i] as u16;
    let hi = b[i + 1] as u16;
    lo + 256 * hi
}

pub fn read_u32_le(b: &[u8], i: usize) -> (r: u32)
    requires
        i + 4 <= b@.len(),
    ensures
        r as int == le_u32(b@, i as int),
{
    // The slice length fits in usize, so `i + 2` does not overflow.
    let _len = b.len();
    let lo = read_u16_le(b, i) as u32;
    let hi = read_u16_le(b, i + 2) as u32;
    lo + 65536 * hi
}

pub fn read_i32_le(b: &[u8], i: usize) -> (r: i32)
    requires
        i + 4 <= b@.len(),
    ensures
        r as int == le_i32(b@, i as int),
{
    let u = read_u32_le(b, i);
    if u < 0x8000_0000 {
        u as i32
    } else {
        let below: u32 = u - 0x8000_0000;
        (below as i32) - 0x7fff_ffff - 1
    }
}

} // verus!
