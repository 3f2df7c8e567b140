//! Arithmetic on steps: each operator works on the raw values and gives a
//! step back. What the result means as a pitch is for the caller to say.

use vstd::prelude::*;
use vstd::std_specs::ops::{
    AddSpecImpl, SubSpecImpl, MulSpecImpl, DivSpecImpl, RemSpecImpl, NegSpecImpl,
};
use core::ops::{Add, Sub, Mul, Div, Rem, Neg};
use crate::arith::{
    add_bits, sub_bits, mul_bits, div_bits, rem_bits, neg_bits, sum, difference, product,
    quotient, remainder, negation,
};
use crate::step::Step;

verus! {

impl Add for Step {
    type Output = Step;

    /// The rounded sum of two steps.
    fn add(self, rhs: Step) -> (r: Step) {
        Step(sum(self.0, rhs.0))
    }
}

impl AddSpecImpl for Step {
    open spec fn obeys_add_spec() -> bool {
        true
    }

    open spec fn add_req(self, rhs: Step) -> bool {
        true
    }

    open spec fn add_spec(self, rhs: Step) -> Step {
        Step(add_bits(self.0, rhs.0))
    }
}

impl Sub for Step {
    type Output = Step;

    /// The rounded difference of two steps.
    fn sub(self, rhs: Step) -> (r: Step) {
        Step(difference(self.0, rhs.0))
    }
}

impl SubSpecImpl for Step {
    open spec fn obeys_sub_spec() -> bool {
        true
    }

    open spec fn sub_req(self, rhs: Step) -> bool {
        true
    }

    open spec fn sub_spec(self, rhs: Step) -> Step {
        Step(sub_bits(self.0, rhs.0))
    }
}

impl Mul for Step {
    type Output = Step;

    /// The rounded product of two steps.
    fn mul(self, rhs: Step) -> (r: Step) {
        Step(product(self.0, rhs.0))
    }
}

impl MulSpecImpl for Step {
    open spec fn obeys_mul_spec() -> bool {
        true
    }

    open spec fn mul_req(self, rhs: Step) -> bool {
        true
    }

    open spec fn mul_spec(self, rhs: Step) -> Step {
        Step(mul_bits(self.0, rhs.0))
    }
}

impl Div for Step {
    type Output = Step;

    /// The rounded quotient of two steps. Division by zero gives an
    /// infinity, or a NaN where the dividend is zero too.
    fn div(self, rhs: Step) -> (r: Step) {
        Step(quotient(self.0, rhs.0))
    }
}

impl DivSpecImpl for Step {
    open spec fn obeys_div_spec() -> bool {
        true
    }

    open spec fn div_req(self, rhs: Step) -> bool {
        true
    }

    open spec fn div_spec(self, rhs: Step) -> Step {
        Step(div_bits(self.0, rhs.0))
    }
}

impl Rem for Step {
    type Output = Step;

    /// The remainder of dividing one step by another, under the sign of the
    /// dividend. A zero divisor gives a NaN.
    fn rem(self, rhs: Step) -> (r: Step) {
        Step(remainder(self.0, rhs.0))
    }
}

impl RemSpecImpl for Step {
    open spec fn obeys_rem_spec() -> bool {
        true
    }

    open spec fn rem_req(self, rhs: Step) -> bool {
        true
    }

    open spec fn rem_spec(self, rhs: Step) -> Step {
        Step(rem_bits(self.0, rhs.0))
    }
}

impl Neg for Step {
    type Output = Step;

    /// The step with its sign flipped.
    fn neg(self) -> (r: Step) {
        Step(negation(self.0))
    }
}

impl NegSpecImpl for Step {
    open spec fn obeys_neg_spec() -> bool {
        true
    }

    open spec fn neg_req(self) -> bool {
        true
    }

    open spec fn neg_spec(self) -> Step {
        Step(neg_bits(self.0))
    }
}

} // verus!
