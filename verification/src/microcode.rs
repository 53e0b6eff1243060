//! CPU microcode update images: the header checksum and the processor
//! signature they are built for.
use vstd::prelude::*;
use crate::bytes::{le32, rd_le32};

verus! {

/// Sum of the little-endian 32-bit words of `d[..4 * n]`, modulo 2^32.
pub open spec fn word_sum(d: Seq<u8>, n: int) -> int
    decreases n,
{
    if n <= 0 {
        0
    } else {
        (word_sum(d, n - 1) + le32(d, 4 * (n - 1))) % 0x1_0000_0000
    }
}

/// An update image is valid when it has at least the 48-byte header, a
/// whole number of 32-bit words, and those words sum to zero (mod 2^32).
pub fn checksum_ok(data: &[u8]) -> (r: bool)
    ensures
        r == (data@.len() >= 48 && data@.len() % 4 == 0 && word_sum(data@, (data@.len() / 4) as int) == 0),
{
    if data.len() < 48 || data.len() % 4 != 0 {
        return false;
    }
    let mut sum: u32 = 0;
    let mut i: usize = 0;
    while i < data.len()
        invariant
            data@.len() % 4 == 0,
            i % 4 == 0,
            i <= data@.len(),
            sum == word_sum(data@, (i / 4) as int),
        decreases data@.len() - i,
    {
        let w: u32 = rd_le32(data, i);
        proof {
            assert((i + 4) / 4 == i / 4 + 1);
            assert(4 * (i / 4) == i);
        }
        sum = sum.wrapping_add(w);
        i = i + 4;
    }
    sum == 0
}

/// The processor signature in the header (bytes 12..16).
pub fn mc_signature(data: &[u8]) -> (r: u32)
    requires
        data@.len() >= 16,
    ensures
        r == le32(data@, 12),
{
    rd_le32(data, 12)
}

} // verus!
