//! Endpoint types that a DescribeCluster request may ask about.

use vstd::prelude::*;

verus! {

pub const UNKNOWN: i8 = 0;

pub const BROKER: i8 = 1;

pub const CONTROLLER: i8 = 2;

} // verus!
