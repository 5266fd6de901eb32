//! Ordering of exact seconds by value, so `<`, `<=`, `>` and `>=` compare
//! the rational numbers the values denote.
use vstd::prelude::*;

use crate::time::Seconds;

verus! {

impl PartialOrd for Seconds {
    fn partial_cmp(&self, other: &Seconds) -> (r: Option<core::cmp::Ordering>) {
        if self.before(*other) {
            Some(core::cmp::Ordering::Less)
        } else if *self == *other {
            Some(core::cmp::Ordering::Equal)
        } else {
            Some(core::cmp::Ordering::Greater)
        }
    }
}

impl vstd::std_specs::cmp::PartialOrdSpecImpl for Seconds {
    open spec fn obeys_partial_cmp_spec() -> bool {
        true
    }

    open spec fn partial_cmp_spec(&self, other: &Seconds) -> Option<core::cmp::Ordering> {
        if self.spec_before(*other) {
            Some(core::cmp::Ordering::Less)
        } else if *self == *other {
            Some(core::cmp::Ordering::Equal)
        } else {
            Some(core::cmp::Ordering::Greater)
        }
    }
}

} // verus!
