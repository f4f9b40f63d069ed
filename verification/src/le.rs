use vstd::prelude::*;

verus! {

/// The little-endian 16-bit value at `off`.
pub open spec fn le_u16(b: Seq<u8>, off: int) -> u16 {
    (b[off] as int + b[off + 1] as int * 0x100) as u16
}

/// The little-endian 32-bit value at `off`.
pub open spec fn le_u32(b: Seq<u8>, off: int) -> u32 {
    (b[off] as int + b[off + 1] as int * 0x100 + b[off + 2] as int * 0x1_0000 + b[off + 3] as int
        * 0x100_0000) as u32
}

/// The little-endian 64-bit value at `off`.
pub open spec fn le_u64(b: Seq<u8>, off: int) -> u64 {
    (le_u32(b, off) as int + le_u32(b, off + 4) as int * 0x1_0000_0000) as u64
}

/// Decodes the little-endian 16-bit value at `off`.
pub fn load_u16(bytes: &[u8], off: usize) -> (r: u16)
    requires
        off + 2 <= bytes@.len(),
    ensures
        r == le_u16(bytes@, off as int),
{
    let b0 = bytes[off];
    let b1 = bytes[off + 1];
    assert((b0 as u16) | ((b1 as u16) << 8u16) == b0 as int + b1 as int * 0x100) by (bit_vector);
    (b0 as u16) | ((b1 as u16) << 8u16)
}

/// Decodes the little-endian 32-bit value at `off`.
pub fn load_u32(bytes: &[u8], off: usize) -> (r: u32)
    requires
        off + 4 <= bytes@.len(),
    ensures
        r == le_u32(bytes@, off as int),
{
    let b0 = bytes[off];
    let b1 = bytes[off + 1];
    let b2 = bytes[off + 2];
    let b3 = bytes[off + 3];
    let v = (b0 as u32) | ((b1 as u32) << 8u32) | ((b2 as u32) << 16u32) | ((b3 as u32) << 24u32);
    assert(v == b0 as int + b1 as int * 0x100 + b2 as int * 0x1_0000 + b3 as int * 0x100_0000)
        by (bit_vector)
        requires
            v == (b0 as u32) | ((b1 as u32) << 8u32) | ((b2 as u32) << 16u32) | ((b3 as u32)
                << 24u32),
    ;
    v
}

/// Decodes the little-endian 64-bit value at `off`.
pub fn load_u64(bytes: &[u8], off: usize) -> (r: u64)
    requires
        off + 8 <= bytes@.len(),
    ensures
        r == le_u64(bytes@, off as int),
{
    let _len = bytes.len();
    let low = load_u32(bytes, off);
    let high = load_u32(bytes, off + 4);
    let v = (low as u64) | ((high as u64) << 32u64);
    assert(v == low as int + high as int * 0x1_0000_0000) by (bit_vector)
        requires
            v == (low as u64) | ((high as u64) << 32u64),
    ;
    v
}

} // verus!
