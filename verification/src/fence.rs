//! Fence stamps: under which assignment a file was written.

use vstd::prelude::*;
use std::cmp::Ordering;

verus! {

/// The assignment under which a writer held itself to be coordinator.
///
/// Stamps are ordered by the controller's epoch first, then by the version of
/// the assignment within it.
#[derive(Debug, Clone, Copy, PartialEq, Eq, Ord, Structural)]
pub struct FenceStamp {
    pub controller_epoch: i64,
    pub assignment_version: i64,
}

/// Whether `a` is the newer stamp.
pub open spec fn newer(a: FenceStamp, b: FenceStamp) -> bool {
    a.controller_epoch > b.controller_epoch || (a.controller_epoch == b.controller_epoch && a.assignment_version
        > b.assignment_version)
}

impl Default for FenceStamp {
    fn default() -> (r: Self)
        ensures
            r == (FenceStamp { controller_epoch: 0, assignment_version: 0 }),
    {
        FenceStamp { controller_epoch: 0, assignment_version: 0 }
    }
}

impl PartialOrd for FenceStamp {
    fn partial_cmp(&self, other: &FenceStamp) -> (r: Option<Ordering>) {
        if self.newer_than(*other) {
            Some(Ordering::Greater)
        } else if other.newer_than(*self) {
            Some(Ordering::Less)
        } else {
            Some(Ordering::Equal)
        }
    }
}

impl vstd::std_specs::cmp::PartialOrdSpecImpl for FenceStamp {
    open spec fn obeys_partial_cmp_spec() -> bool {
        true
    }

    open spec fn partial_cmp_spec(&self, other: &FenceStamp) -> Option<Ordering> {
        if newer(*self, *other) {
            Some(Ordering::Greater)
        } else if newer(*other, *self) {
            Some(Ordering::Less)
        } else {
            Some(Ordering::Equal)
        }
    }
}

impl FenceStamp {
    pub fn newer_than(self, other: FenceStamp) -> (r: bool)
        ensures
            r == newer(self, other),
    {
        self.controller_epoch > other.controller_epoch || (self.controller_epoch == other.controller_epoch
            && self.assignment_version > other.assignment_version)
    }

    /// Whether the stamp is the one of a file that carries none.
    pub fn is_zero(self) -> (r: bool)
        ensures
            r == (self.controller_epoch == 0 && self.assignment_version == 0),
    {
        self.controller_epoch == 0 && self.assignment_version == 0
    }
}

/// Of two stamps one is the newer, or they are the same.
pub proof fn law_stamps_are_totally_ordered(a: FenceStamp, b: FenceStamp, c: FenceStamp)
    ensures
        newer(a, b) || newer(b, a) || a == b,
        !(newer(a, b) && newer(b, a)),
        newer(a, b) && newer(b, c) ==> newer(a, c),
{
}

} // verus!
