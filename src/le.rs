use vstd::prelude::*;

verus! {

/// The little-endian 16-bit value stored at `pos`.
pub open spec fn le16(s: Seq<u8>, pos: int) -> nat {
    s[pos] as nat + 256 * (s[pos + 1] as nat)
}

/// The little-endian 32-bit value stored at `pos`.
pub open spec fn le32(s: Seq<u8>, pos: int) -> nat {
    s[pos] as nat + 256 * (s[pos + 1] as nat) + 65536 * (s[pos + 2] as nat) + 16777216 * (
    s[pos + 3] as nat)
}

/// Reads the little-endian 16-bit value at `pos`.
pub fn read_u16_le(data: &[u8], pos: usize) -> (r: u16)
    requires
        pos + 2 <= data@.len(),
    ensures
        r as nat == le16(data@, pos as int),
{
    let b0 = data[pos] as u16;
    let b1 = data[pos + 1] as u16;
    b0 + 256 * b1
}

/// Reads the little-endian 32-bit value at `pos`.
pub fn read_u32_le(data: &[u8], pos: usize) -> (r: u32)
    requires
        pos + 4 <= data@.len(),
    ensures
        r as nat == le32(data@, pos as int),
{
    let b0 = data[pos] as u32;
    let b1 = data[pos + 1] as u32;
    let b2 = data[pos + 2] as u32;
    let b3 = data[pos + 3] as u32;
    b0 + 256 * b1 + 65536 * b2 + 16777216 * b3
}

} // verus!
