//! Error codes of the group protocol.

use vstd::prelude::*;

verus! {

pub const NONE: i16 = 0;

pub const UNKNOWN_MEMBER_ID: i16 = 25;

pub const REBALANCE_IN_PROGRESS: i16 = 27;

pub const ILLEGAL_GENERATION: i16 = 22;

pub const MEMBER_ID_REQUIRED: i16 = 79;

} // verus!
