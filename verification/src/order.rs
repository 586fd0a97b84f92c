//! The comparison operators, which follow the numeric order of the doubles.
use vstd::prelude::*;
use vstd::std_specs::cmp::{PartialEqSpecImpl, PartialOrdSpecImpl};
use core::cmp::Ordering;
use crate::binary64::{Binary64, ieee_eq_spec, ieee_lt_spec};
use crate::duration::FloatDuration;

verus! {

impl PartialEq for Binary64 {
    fn eq(&self, other: &Binary64) -> (r: bool) {
        self.ieee_eq(*other)
    }
}

impl PartialEqSpecImpl for Binary64 {
    open spec fn obeys_eq_spec() -> bool {
        true
    }

    open spec fn eq_spec(&self, other: &Binary64) -> bool {
        ieee_eq_spec(*self, *other)
    }
}

impl PartialOrd for Binary64 {
    fn partial_cmp(&self, other: &Binary64) -> (r: Option<Ordering>) {
        if self.ieee_eq(*other) {
            Some(Ordering::Equal)
        } else if self.ieee_lt(*other) {
            Some(Ordering::Less)
        } else if other.ieee_lt(*self) {
            Some(Ordering::Greater)
        } else {
            None
        }
    }
}

impl PartialOrdSpecImpl for Binary64 {
    open spec fn obeys_partial_cmp_spec() -> bool {
        true
    }

    open spec fn partial_cmp_spec(&self, other: &Binary64) -> Option<Ordering> {
        if ieee_eq_spec(*self, *other) {
            Some(Ordering::Equal)
        } else if ieee_lt_spec(*self, *other) {
            Some(Ordering::Less)
        } else if ieee_lt_spec(*other, *self) {
            Some(Ordering::Greater)
        } else {
            None
        }
    }
}

impl PartialEq for FloatDuration {
    fn eq(&self, other: &FloatDuration) -> (r: bool) {
        self.ieee_eq(*other)
    }
}

impl PartialEqSpecImpl for FloatDuration {
    open spec fn obeys_eq_spec() -> bool {
        true
    }

    open spec fn eq_spec(&self, other: &FloatDuration) -> bool {
        ieee_eq_spec(self@, other@)
    }
}

impl PartialOrd for FloatDuration {
    fn partial_cmp(&self, other: &FloatDuration) -> (r: Option<Ordering>) {
        if self.ieee_eq(*other) {
            Some(Ordering::Equal)
        } else if self.ieee_lt(*other) {
            Some(Ordering::Less)
        } else if other.ieee_lt(*self) {
            Some(Ordering::Greater)
        } else {
            None
        }
    }
}

impl PartialOrdSpecImpl for FloatDuration {
    open spec fn obeys_partial_cmp_spec() -> bool {
        true
    }

    open spec fn partial_cmp_spec(&self, other: &FloatDuration) -> Option<Ordering> {
        if ieee_eq_spec(self@, other@) {
            Some(Ordering::Equal)
        } else if ieee_lt_spec(self@, other@) {
            Some(Ordering::Less)
        } else if ieee_lt_spec(other@, self@) {
            Some(Ordering::Greater)
        } else {
            None
        }
    }
}

} // verus!
