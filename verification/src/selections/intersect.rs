//! Selections compared by the slots that they share.
use super::SelectionUnbound;
use core::cmp::Ordering;
use vstd::prelude::*;
use vstd::std_specs::cmp::{PartialEqSpecImpl, PartialOrdSpecImpl};
use vstd::std_specs::convert::FromSpecImpl;

verus! {

/// Wrapper struct which overrides Selections' equality behavior:
/// if selections overlap, then they will be marked as equal in terms of
/// `SelectionIntersect` type.
///
/// Note that if there are `a`, `b` and `c` selections which overlap their
/// neighbour on the right, `a` and `c` won't be marked as equal, and it
/// violates transitivity. Thus `SelectionIntersect` is a way to ask whether
/// two selections collide, and on which side one lies of another that it
/// does not collide with; it is no order to sort by.
#[derive(Debug, Clone, Copy)]
pub struct SelectionIntersect(pub SelectionUnbound);

impl PartialEq for SelectionIntersect {
    fn eq(&self, rhs: &Self) -> (r: bool) {
        let x = &self.0;
        let y = &rhs.0;
        x.from.le(&y.to) && y.from.le(&x.to)
    }
}

impl PartialEqSpecImpl for SelectionIntersect {
    open spec fn obeys_eq_spec() -> bool {
        true
    }

    open spec fn eq_spec(&self, rhs: &Self) -> bool {
        self.0@.overlaps(rhs.0@)
    }
}

impl PartialOrd for SelectionIntersect {
    fn partial_cmp(&self, rhs: &Self) -> (r: Option<Ordering>) {
        if self.0.from.le(&rhs.0.to) && rhs.0.from.le(&self.0.to) {
            // If Selections have an intersection -- they are equal
            // in terms of SelectionIntersect newtype
            Some(Ordering::Equal)
        } else if self.0.from.lt(&rhs.0.from) {
            // Else they should be compared by heads
            Some(Ordering::Less)
        } else {
            Some(Ordering::Greater)
        }
    }
}

impl PartialOrdSpecImpl for SelectionIntersect {
    open spec fn obeys_partial_cmp_spec() -> bool {
        true
    }

    open spec fn partial_cmp_spec(&self, rhs: &Self) -> Option<Ordering> {
        if self.0@.overlaps(rhs.0@) {
            Some(Ordering::Equal)
        } else if self.0@.from.lt(rhs.0@.from) {
            Some(Ordering::Less)
        } else {
            Some(Ordering::Greater)
        }
    }
}

impl From<SelectionUnbound> for SelectionIntersect {
    fn from(selection: SelectionUnbound) -> (r: Self)
        ensures
            r.0 == selection,
    {
        SelectionIntersect(selection)
    }
}

impl FromSpecImpl<SelectionUnbound> for SelectionIntersect {
    open spec fn obeys_from_spec() -> bool {
        true
    }

    open spec fn from_spec(selection: SelectionUnbound) -> Self {
        SelectionIntersect(selection)
    }
}

impl From<SelectionIntersect> for SelectionUnbound {
    fn from(selection_intersect: SelectionIntersect) -> (r: Self)
        ensures
            r == selection_intersect.0,
    {
        selection_intersect.0
    }
}

impl FromSpecImpl<SelectionIntersect> for SelectionUnbound {
    open spec fn obeys_from_spec() -> bool {
        true
    }

    open spec fn from_spec(selection_intersect: SelectionIntersect) -> Self {
        selection_intersect.0
    }
}

} // verus!
