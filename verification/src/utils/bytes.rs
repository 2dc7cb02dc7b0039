use vstd::prelude::*;

verus! {

/// The big-endian `u32` in `s[i..i + 4]`.
pub open spec fn be_u32(s: Seq<u8>, i: int) -> u32 {
    (s[i] as int * 0x100_0000 + s[i + 1] as int * 0x1_0000 + s[i + 2] as int * 0x100 + s[i
        + 3] as int) as u32
}

/// The little-endian `u32` in `s[i..i + 4]`.
pub open spec fn le_u32(s: Seq<u8>, i: int) -> u32 {
    (s[i + 3] as int * 0x100_0000 + s[i + 2] as int * 0x1_0000 + s[i + 1] as int * 0x100
        + s[i] as int) as u32
}

/// The big-endian `u16` in `s[i..i + 2]`.
pub open spec fn be_u16(s: Seq<u8>, i: int) -> u16 {
    (s[i] as int * 0x100 + s[i + 1] as int) as u16
}

/// The little-endian `u16` in `s[i..i + 2]`.
pub open spec fn le_u16(s: Seq<u8>, i: int) -> u16 {
    (s[i + 1] as int * 0x100 + s[i] as int) as u16
}

/// Reads a big-endian `u32` at `i`.
pub fn read_be_u32(data: &[u8], i: usize) -> (r: u32)
    requires
        i + 4 <= data@.len(),
    ensures
        r == be_u32(data@, i as int),
{
    (data[i] as u32) * 0x100_0000 + (data[i + 1] as u32) * 0x1_0000 + (data[i + 2] as u32) * 0x100
        + data[i + 3] as u32
}

/// Reads a little-endian `u32` at `i`.
pub fn read_le_u32(data: &[u8], i: usize) -> (r: u32)
    requires
        i + 4 <= data@.len(),
    ensures
        r == le_u32(data@, i as int),
{
    let b0 = data[i] as u32;
    (data[i + 3] as u32) * 0x100_0000 + (data[i + 2] as u32) * 0x1_0000 + (data[i + 1] as u32)
        * 0x100 + b0
}

/// Reads a big-endian `u16` at `i`.
pub fn read_be_u16(data: &[u8], i: usize) -> (r: u16)
    requires
        i + 2 <= data@.len(),
    ensures
        r == be_u16(data@, i as int),
{
    (data[i] as u16) * 0x100 + data[i + 1] as u16
}

/// Reads a little-endian `u16` at `i`.
pub fn read_le_u16(data: &[u8], i: usize) -> (r: u16)
    requires
        i + 2 <= data@.len(),
    ensures
        r == le_u16(data@, i as int),
{
    let b0 = data[i] as u16;
    (data[i + 1] as u16) * 0x100 + b0
}

} // verus!
