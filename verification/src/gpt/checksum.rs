use vstd::prelude::*;

use crc::{CRC_32_ISO_HDLC, Crc};

verus! {

/// `n` steps of the reflected CRC-32 register: shift right, folding in the reflected
/// polynomial 0xEDB88320 whenever a one bit leaves.
pub open spec fn crc32_shift(register: u32, n: nat) -> u32
    decreases n,
{
    if n == 0 {
        register
    } else {
        let r = crc32_shift(register, (n - 1) as nat);
        if r & 1 == 1 {
            (r >> 1u32) ^ 0xEDB8_8320u32
        } else {
            r >> 1u32
        }
    }
}

/// The CRC-32 register after `bytes`, starting from all ones, each byte folded into the
/// low bits and shifted through.
pub open spec fn crc32_register(bytes: Seq<u8>) -> u32
    decreases bytes.len(),
{
    if bytes.len() == 0 {
        0xFFFF_FFFFu32
    } else {
        crc32_shift(crc32_register(bytes.drop_last()) ^ (bytes.last() as u32), 8)
    }
}

/// The CRC-32/ISO-HDLC checksum of `bytes`: the register after all bytes, inverted.
pub open spec fn crc32_iso_hdlc(bytes: Seq<u8>) -> u32 {
    crc32_register(bytes) ^ 0xFFFF_FFFFu32
}

/// Calls `crc::Crc::<u32>::checksum` with the `CRC_32_ISO_HDLC` algorithm of `crc`
/// (polynomial 0x04C11DB7 reflected, initial value and final XOR all ones).
/// Claimed: the result is that checksum, `crc32_iso_hdlc` of the bytes.
#[verifier::external_body]
pub(crate) fn crc32(bytes: &[u8]) -> (r: u32)
    ensures
        r == crc32_iso_hdlc(bytes@),
{
    Crc::<u32>::new(&CRC_32_ISO_HDLC).checksum(bytes)
}

} // verus!
