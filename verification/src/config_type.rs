//! Types of configuration values on the wire.

use vstd::prelude::*;

verus! {

pub const INT: i8 = 3;

pub const LONG: i8 = 5;

pub const LIST: i8 = 7;

} // verus!
