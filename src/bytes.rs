//! Big-endian and little-endian integer fields read out of byte buffers.
use vstd::prelude::*;

verus! {

/// The big-endian 16-bit value of `b[i..i + 2]`.
pub open spec fn be16(b: Seq<u8>, i: int) -> int {
    b[i] as int * 0x100 + b[i + 1] as int
}

/// The big-endian 32-bit value of `b[i..i + 4]`.
pub open spec fn be32(b: Seq<u8>, i: int) -> int {
    be16(b, i) * 0x10000 + be16(b, i + 2)
}

/// The big-endian 64-bit value of `b[i..i + 8]`.
pub open spec fn be64(b: Seq<u8>, i: int) -> int {
    be32(b, i) * 0x1_0000_0000 + be32(b, i + 4)
}

/// The little-endian 32-bit value of `b[i..i + 4]`.
pub open spec fn le32(b: Seq<u8>, i: int) -> int {
    b[i] as int + b[i + 1] as int * 0x100 + b[i + 2] as int * 0x10000 + b[i + 3] as int
        * 0x100_0000
}

pub fn read_be16(b: &[u8], i: usize) -> (r: u16)
    requires
        i + 2 <= b@.len(),
    ensures
        r as int == be16(b@, i as int),
{
    (b[i] as u16) * 0x100 + b[i + 1] as u16
}

pub fn read_be32(b: &[u8], i: usize) -> (r: u32)
    requires
        i + 4 <= b@.len(),
    ensures
        r as int == be32(b@, i as int),
{
    let _n = b.len();
    let hi = read_be16(b, i) as u32;
    let lo = read_be16(b, i + 2) as u32;
    hi * 0x10000 + lo
}

pub fn read_be64(b: &[u8], i: usize) -> (r: u64)
    requires
        i + 8 <= b@.len(),
    ensures
        r as int == be64(b@, i as int),
{
    let _n = b.len();
    let hi = read_be32(b, i) as u64;
    let lo = read_be32(b, i + 4) as u64;
    hi * 0x1_0000_0000 + lo
}

pub fn read_le32(b: &[u8], i: usize) -> (r: u32)
    requires
        i + 4 <= b@.len(),
    ensures
        r as int == le32(b@, i as int),
{
    b[i] as u32 + (b[i + 1] as u32) * 0x100 + (b[i + 2] as u32) * 0x10000 + (b[i + 3] as u32)
        * 0x100_0000
}

} // verus!
