//! Equality and order of CFIs.

use std::cmp::Ordering;
use vstd::prelude::*;
use vstd::std_specs::cmp::PartialEqSpecImpl;
use vstd::std_specs::cmp::PartialOrdSpecImpl;

use crate::cfi::{cfi_sign, ordering_of, same_step, same_step_exec, Cfi, CfiRange, CfiStep};
use crate::cfi_parse::cfi_view;
use crate::text::str_eq;

verus! {

fn opt_str_eq(a: &Option<String>, b: &Option<String>) -> (r: bool)
    ensures
        r == (crate::navigation::opt_view(*a) == crate::navigation::opt_view(*b)),
{
    match (a, b) {
        (Some(x), Some(y)) => str_eq(x.as_str(), y.as_str()),
        (None, None) => true,
        _ => false,
    }
}

/// Whether two CFIs are the same: spine item, steps (index and ID
/// assertion), and offsets.
pub fn cfi_eq(a: &Cfi, b: &Cfi) -> (r: bool)
    ensures
        r == (cfi_view(*a) == cfi_view(*b)),
{
    let ghost va = cfi_view(*a);
    let ghost vb = cfi_view(*b);
    if a.spine_index != b.spine_index {
        return false;
    }
    if a.path.len() != b.path.len() {
        assert(va.1.steps.len() != vb.1.steps.len());
        return false;
    }
    let same_offset = match (a.character_offset, b.character_offset) {
        (Some(x), Some(y)) => x == y,
        (None, None) => true,
        _ => false,
    };
    if !same_offset {
        assert(va.1.offset != vb.1.offset);
        return false;
    }
    if !opt_str_eq(&a.temporal_offset, &b.temporal_offset) {
        return false;
    }
    let same_spatial = match (&a.spatial_offset, &b.spatial_offset) {
        (Some(x), Some(y)) => str_eq(x.0.as_str(), y.0.as_str()) && str_eq(x.1.as_str(), y.1.as_str()),
        (None, None) => true,
        _ => false,
    };
    if !same_spatial {
        return false;
    }
    let mut k: usize = 0;
    while k < a.path.len()
        invariant
            k <= a.path@.len(),
            a.path@.len() == b.path@.len(),
            va == cfi_view(*a),
            vb == cfi_view(*b),
            forall|j: int| 0 <= j < k ==> #[trigger] va.1.steps[j] == vb.1.steps[j],
        decreases a.path@.len() - k,
    {
        if !same_step_exec(&a.path[k], &b.path[k]) {
            assert(va.1.steps[k as int] != vb.1.steps[k as int]);
            return false;
        }
        k += 1;
    }
    assert(va.1.steps =~= vb.1.steps);
    true
}

impl PartialEq for CfiStep {
    fn eq(&self, other: &Self) -> (r: bool) {
        same_step_exec(self, other)
    }
}

impl PartialEqSpecImpl for CfiStep {
    open spec fn obeys_eq_spec() -> bool {
        true
    }

    open spec fn eq_spec(&self, other: &Self) -> bool {
        same_step(*self, *other)
    }
}

impl PartialEq for Cfi {
    fn eq(&self, other: &Self) -> (r: bool) {
        cfi_eq(self, other)
    }
}

impl PartialEqSpecImpl for Cfi {
    open spec fn obeys_eq_spec() -> bool {
        true
    }

    open spec fn eq_spec(&self, other: &Self) -> bool {
        cfi_view(*self) == cfi_view(*other)
    }
}

impl PartialEq for CfiRange {
    fn eq(&self, other: &Self) -> (r: bool) {
        cfi_eq(&self.start, &other.start) && cfi_eq(&self.end, &other.end)
    }
}

impl PartialEqSpecImpl for CfiRange {
    open spec fn obeys_eq_spec() -> bool {
        true
    }

    open spec fn eq_spec(&self, other: &Self) -> bool {
        cfi_view(self.start) == cfi_view(other.start) && cfi_view(self.end) == cfi_view(other.end)
    }
}

impl PartialOrd for Cfi {
    fn partial_cmp(&self, other: &Self) -> (r: Option<Ordering>) {
        Some(self.compare(other))
    }
}

impl PartialOrdSpecImpl for Cfi {
    open spec fn obeys_partial_cmp_spec() -> bool {
        true
    }

    open spec fn partial_cmp_spec(&self, other: &Self) -> Option<Ordering> {
        Some(ordering_of(cfi_sign(*self, *other)))
    }
}

} // verus!
