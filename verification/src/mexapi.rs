//! Services offered to MEX programs that compute on plain values.
use vstd::prelude::*;
use crate::bytes::le64;

verus! {

/// A random 64-bit number from eight random bytes (least significant
/// first); the caller draws the bytes from the random source.
pub fn api_random(bytes: [u8; 8]) -> (r: u64)
    ensures
        r == le64(bytes@, 0),
{
    crate::bytes::rd_le64(&bytes, 0)
}

} // verus!
