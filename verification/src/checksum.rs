//! CRC32 (IEEE) of frame and packet payloads, computed by `crc32fast`.

use vstd::prelude::*;

verus! {

/// One bit step of the reflected CRC-32 register (polynomial `0xEDB88320`).
pub open spec fn crc_bit(c: u32) -> u32 {
    if c & 1 == 1 {
        (c >> 1) ^ 0xEDB8_8320u32
    } else {
        c >> 1
    }
}

/// The register after taking in one byte, low bit first.
pub open spec fn crc_byte(c: u32, b: u8) -> u32 {
    let x = c ^ (b as u32);
    crc_bit(crc_bit(crc_bit(crc_bit(crc_bit(crc_bit(crc_bit(crc_bit(x))))))))
}

/// The register after taking in `s`, starting from `c`.
pub open spec fn crc_register(c: u32, s: Seq<u8>) -> u32
    decreases s.len(),
{
    if s.len() == 0 {
        c
    } else {
        crc_register(crc_byte(c, s[0]), s.skip(1))
    }
}

/// The CRC32 (IEEE) of `data`: the register starts at all ones, and the
/// result is its final value with every bit inverted.
#[verifier::opaque]
pub open spec fn crc32_of(data: Seq<u8>) -> u32 {
    crc_register(0xFFFF_FFFFu32, data) ^ 0xFFFF_FFFFu32
}

/// Calls `crc32fast::hash`, which computes the CRC32 (IEEE) checksum of the
/// whole buffer: reflected polynomial `0xEDB88320`, initial value and final
/// xor `0xFFFFFFFF`, as [`crc32_of`] states.
#[verifier::external_body]
pub(crate) fn crc32(data: &[u8]) -> (r: u32)
    ensures
        r == crc32_of(data@),
{
    crc32fast::hash(data)
}

} // verus!
