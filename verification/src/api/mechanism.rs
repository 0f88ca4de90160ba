//! SCRAM mechanisms on the wire.

use vstd::prelude::*;

verus! {

pub const UNKNOWN: i8 = 0;

pub const SCRAM_SHA_256: i8 = 1;

pub const SCRAM_SHA_512: i8 = 2;

} // verus!
