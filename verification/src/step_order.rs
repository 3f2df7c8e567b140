//! Equality and order of steps, by their values.
//!
//! Two steps are equal where their values are: positive and negative zero
//! are equal, and a NaN equals nothing, itself included. A NaN is not
//! ordered against anything.

use vstd::prelude::*;
use vstd::std_specs::cmp::{PartialEqSpecImpl, PartialOrdSpecImpl};
use core::cmp::Ordering;
use crate::binary32::is_nan;
use crate::compare::{eq_bits, lt_bits, equal, less, nan};
use crate::step::Step;

verus! {

impl PartialEq for Step {
    fn eq(&self, other: &Step) -> (r: bool) {
        equal(self.0, other.0)
    }
}

impl PartialEqSpecImpl for Step {
    open spec fn obeys_eq_spec() -> bool {
        true
    }

    open spec fn eq_spec(&self, other: &Step) -> bool {
        eq_bits(self.0, other.0)
    }
}

impl PartialOrd for Step {
    fn partial_cmp(&self, other: &Step) -> (r: Option<Ordering>) {
        if nan(self.0) || nan(other.0) {
            None
        } else if less(self.0, other.0) {
            Some(Ordering::Less)
        } else if less(other.0, self.0) {
            Some(Ordering::Greater)
        } else {
            Some(Ordering::Equal)
        }
    }
}

impl PartialOrdSpecImpl for Step {
    open spec fn obeys_partial_cmp_spec() -> bool {
        true
    }

    open spec fn partial_cmp_spec(&self, other: &Step) -> Option<Ordering> {
        self.order(*other)
    }
}

impl Eq for Step {

}

impl Step {
    /// How this step stands to another: nothing where either is a NaN, and
    /// otherwise the order of the two values.
    pub open spec fn order(self, other: Step) -> Option<Ordering> {
        if is_nan(self.0) || is_nan(other.0) {
            None
        } else if lt_bits(self.0, other.0) {
            Some(Ordering::Less)
        } else if lt_bits(other.0, self.0) {
            Some(Ordering::Greater)
        } else {
            Some(Ordering::Equal)
        }
    }

    /// The order of two steps of which neither is a NaN.
    pub fn cmp(&self, other: &Step) -> (r: Ordering)
        requires
            !is_nan(self.0),
            !is_nan(other.0),
        ensures
            Some(r) == self.order(*other),
            r == Ordering::Less <==> lt_bits(self.0, other.0),
            r == Ordering::Equal <==> eq_bits(self.0, other.0),
            r == Ordering::Greater <==> lt_bits(other.0, self.0),
    {
        if less(self.0, other.0) {
            Ordering::Less
        } else if less(other.0, self.0) {
            Ordering::Greater
        } else {
            Ordering::Equal
        }
    }
}

/// Two steps of which neither is a NaN stand in exactly one of three ways:
/// the first below the second, the two equal, or the first above the second.
pub proof fn lemma_order_total(a: Step, b: Step)
    requires
        !is_nan(a.0),
        !is_nan(b.0),
    ensures
        lt_bits(a.0, b.0) || eq_bits(a.0, b.0) || lt_bits(b.0, a.0),
        !(lt_bits(a.0, b.0) && eq_bits(a.0, b.0)),
        !(lt_bits(a.0, b.0) && lt_bits(b.0, a.0)),
        !(eq_bits(a.0, b.0) && lt_bits(b.0, a.0)),
        a.order(b) is Some,
{
}

/// Equality of steps that are no NaN is an equivalence, and their order is
/// transitive.
pub proof fn lemma_order_laws(a: Step, b: Step, c: Step)
    requires
        !is_nan(a.0),
        !is_nan(b.0),
        !is_nan(c.0),
    ensures
        eq_bits(a.0, a.0),
        eq_bits(a.0, b.0) ==> eq_bits(b.0, a.0),
        eq_bits(a.0, b.0) && eq_bits(b.0, c.0) ==> eq_bits(a.0, c.0),
        lt_bits(a.0, b.0) && lt_bits(b.0, c.0) ==> lt_bits(a.0, c.0),
{
}

} // verus!
