//! Error handling facilities.
use vstd::prelude::*;
use vstd::std_specs::convert::FromSpecImpl;
use chrono::OutOfRangeError as ChronoRangeError;

verus! {

/// The failure of a conversion into a representation that cannot hold the
/// duration: one that has no negative values, or a narrower range.
#[derive(Debug, Clone, Copy, PartialEq, Eq, Structural)]
pub struct OutOfRangeError {}

impl OutOfRangeError {
    /// The one value of this error.
    pub fn new() -> (e: OutOfRangeError)
        ensures
            e == (OutOfRangeError {}),
    {
        OutOfRangeError {}
    }

    /// What went wrong, in words.
    pub fn description(&self) -> (text: &'static str)
        ensures
            text@ == "The converted duration value is out of range."@,
    {
        "The converted duration value is out of range."
    }
}

impl Default for OutOfRangeError {
    fn default() -> (e: OutOfRangeError)
        ensures
            e == (OutOfRangeError {}),
    {
        OutOfRangeError {}
    }
}

impl From<ChronoRangeError> for OutOfRangeError {
    fn from(_e: ChronoRangeError) -> (e: OutOfRangeError) {
        OutOfRangeError {}
    }
}

impl FromSpecImpl<ChronoRangeError> for OutOfRangeError {
    open spec fn obeys_from_spec() -> bool {
        true
    }

    open spec fn from_spec(_e: ChronoRangeError) -> OutOfRangeError {
        OutOfRangeError {}
    }
}

} // verus!
