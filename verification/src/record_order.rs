//! Comparing summary records: by total size, and by nothing else.

use crate::aggregate::RepoInfo;
use std::cmp::Ordering;
use vstd::prelude::*;

verus! {

impl PartialEq for RepoInfo {
    /// Two records are equal when their totals are, whatever their names.
    fn eq(&self, other: &Self) -> (equal: bool) {
        self.total_size == other.total_size
    }
}

impl vstd::std_specs::cmp::PartialEqSpecImpl for RepoInfo {
    open spec fn obeys_eq_spec() -> bool {
        true
    }

    open spec fn eq_spec(&self, other: &Self) -> bool {
        self.total_size == other.total_size
    }
}

impl PartialOrd for RepoInfo {
    /// Records are ordered by their totals.
    fn partial_cmp(&self, other: &Self) -> (order: Option<Ordering>) {
        if self.total_size < other.total_size {
            Some(Ordering::Less)
        } else if self.total_size > other.total_size {
            Some(Ordering::Greater)
        } else {
            Some(Ordering::Equal)
        }
    }
}

impl vstd::std_specs::cmp::PartialOrdSpecImpl for RepoInfo {
    open spec fn obeys_partial_cmp_spec() -> bool {
        true
    }

    open spec fn partial_cmp_spec(&self, other: &Self) -> Option<Ordering> {
        if self.total_size < other.total_size {
            Some(Ordering::Less)
        } else if self.total_size > other.total_size {
            Some(Ordering::Greater)
        } else {
            Some(Ordering::Equal)
        }
    }
}

} // verus!
