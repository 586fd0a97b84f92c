//! What the library takes from `std::time::Duration`, the duration of the
//! monotonic clock: a count of whole seconds and a count of nanoseconds below
//! one second.
use vstd::prelude::*;
use core::time::Duration;

verus! {

/// One thousand million: the nanoseconds in a second.
pub const NANOS_IN_SECOND: u32 = 1_000_000_000;

/// The whole seconds of a `Duration`: what `Duration::as_secs` returns.
pub uninterp spec fn duration_secs(d: Duration) -> u64;

/// The part of a `Duration` below one second, in nanoseconds: what
/// `Duration::subsec_nanos` returns.
pub uninterp spec fn duration_subsec_nanos(d: Duration) -> u32;

/// `Duration::new`, for a nanosecond count below one second: the duration
/// has exactly these two parts. (With a larger count the function carries
/// into the seconds and panics where they overflow; the library never passes
/// one.)
pub assume_specification[ Duration::new ](secs: u64, nanos: u32) -> (d: Duration)
    requires
        nanos < NANOS_IN_SECOND,
    ensures
        duration_secs(d) == secs,
        duration_subsec_nanos(d) == nanos,
;

/// `Duration::as_secs`: the whole seconds.
pub assume_specification[ Duration::as_secs ](d: &Duration) -> (secs: u64)
    ensures
        secs == duration_secs(*d),
;

/// `Duration::subsec_nanos`: the nanoseconds below one second, always fewer
/// than a thousand million.
pub assume_specification[ Duration::subsec_nanos ](d: &Duration) -> (nanos: u32)
    ensures
        nanos == duration_subsec_nanos(*d),
        nanos < NANOS_IN_SECOND,
;

} // verus!
