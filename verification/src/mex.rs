//! MEX programs: recognising their file names.
use vstd::prelude::*;
use vstd::string::StringSliceAdditionalSpecFns;
use crate::fat16::upper;

verus! {

/// The name ends in ".MEX", letters compared without regard to ASCII case.
pub open spec fn mex_name(b: Seq<u8>) -> bool {
    let n = b.len() as int;
    &&& n >= 4
    &&& b[n - 4] == 0x2E
    &&& upper(b[n - 3]) == 0x4D
    &&& upper(b[n - 2]) == 0x45
    &&& upper(b[n - 1]) == 0x58
}

/// Whether `name` is a MEX program's file name.
pub fn is_mex_filename(name: &str) -> (r: bool)
    ensures
        r == mex_name(name.spec_bytes()),
{
    let b: &[u8] = name.as_bytes();
    let n: usize = b.len();
    if n < 4 {
        return false;
    }
    b[n - 4] == 0x2E && crate::fat16::to_upper(b[n - 3]) == 0x4D && crate::fat16::to_upper(b[n - 2]) == 0x45
        && crate::fat16::to_upper(b[n - 1]) == 0x58
}

} // verus!
