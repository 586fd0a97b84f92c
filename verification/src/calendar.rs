//! What the library takes from `chrono`: its signed duration, `TimeDelta`
//! (`chrono::Duration` is another name for it), and the error of its
//! conversions.
use vstd::prelude::*;
use core::time::Duration;
use chrono::OutOfRangeError as ChronoRangeError;
use crate::monotonic::{duration_secs, duration_subsec_nanos};

verus! {

/// `chrono::TimeDelta`, carried through as a value that the library does not
/// look into.
#[verifier::external_type_specification]
#[verifier::external_body]
pub struct ExTimeDelta(chrono::TimeDelta);

/// `chrono::OutOfRangeError`, the error of `TimeDelta::from_std`, which holds
/// nothing.
#[verifier::external_type_specification]
#[verifier::external_body]
pub struct ExChronoRangeError(ChronoRangeError);

/// The whole seconds of a `TimeDelta`, rounded toward zero: what
/// `TimeDelta::num_seconds` returns.
pub uninterp spec fn delta_seconds(d: chrono::TimeDelta) -> i64;

/// The part of a `TimeDelta` beyond its whole seconds, in nanoseconds, with
/// the sign of the whole: what `TimeDelta::subsec_nanos` returns.
pub uninterp spec fn delta_subsec_nanos(d: chrono::TimeDelta) -> i32;

/// The largest count of whole seconds that a `TimeDelta` holds: `i64::MAX`
/// milliseconds make this many seconds and 807 milliseconds.
pub const CALENDAR_MAX_SECS: u64 = 9_223_372_036_854_775;

/// The nanoseconds that a `TimeDelta` holds beside its largest count of
/// seconds.
pub const CALENDAR_MAX_NANOS: u32 = 807_000_000;

/// Whether a span of `secs` seconds and `nanos` nanoseconds is within
/// `i64::MAX` milliseconds, the largest `TimeDelta`.
pub open spec fn calendar_holds(secs: u64, nanos: u32) -> bool {
    secs < CALENDAR_MAX_SECS || (secs == CALENDAR_MAX_SECS && nanos <= CALENDAR_MAX_NANOS)
}

/// The length of a `TimeDelta` in nanoseconds.
pub open spec fn delta_total_nanos(d: chrono::TimeDelta) -> int {
    delta_seconds(d) * 1_000_000_000 + delta_subsec_nanos(d)
}

/// `a / b` rounded toward zero, for a positive `b`.
pub open spec fn div_toward_zero(a: int, b: int) -> int {
    if a < 0 {
        -((-a) / b)
    } else {
        a / b
    }
}

/// `TimeDelta::from_std`: succeeds exactly where the duration is within
/// `i64::MAX` milliseconds, and then the `TimeDelta` has the same seconds and
/// nanoseconds.
pub assume_specification[ chrono::TimeDelta::from_std ](duration: Duration) -> (r: Result<
    chrono::TimeDelta,
    ChronoRangeError,
>)
    ensures
        r.is_ok() == calendar_holds(duration_secs(duration), duration_subsec_nanos(duration)),
        r matches Ok(d) ==> delta_seconds(d) == duration_secs(duration) && delta_subsec_nanos(d)
            == duration_subsec_nanos(duration),
;

/// `TimeDelta::num_nanoseconds`: the length in nanoseconds where an `i64`
/// holds it, else `None`.
pub assume_specification[ chrono::TimeDelta::num_nanoseconds ](d: &chrono::TimeDelta) -> (r: Option<
    i64,
>)
    ensures
        r == if i64::MIN <= delta_total_nanos(*d) <= i64::MAX {
            Some(delta_total_nanos(*d) as i64)
        } else {
            None
        },
;

/// `TimeDelta::num_seconds`: the whole seconds, rounded toward zero.
pub assume_specification[ chrono::TimeDelta::num_seconds ](d: &chrono::TimeDelta) -> (r: i64)
    ensures
        r == delta_seconds(*d),
;

/// `TimeDelta::subsec_nanos`: the nanoseconds beyond the whole seconds, fewer
/// than a thousand million in either direction.
pub assume_specification[ chrono::TimeDelta::subsec_nanos ](d: &chrono::TimeDelta) -> (r: i32)
    ensures
        r == delta_subsec_nanos(*d),
        -1_000_000_000 < r < 1_000_000_000,
;

/// The negation of a `TimeDelta`, its `Neg`: both parts change their sign.
#[verifier::external_body]
pub(crate) fn negate_delta(d: chrono::TimeDelta) -> (r: chrono::TimeDelta)
    ensures
        delta_seconds(r) == -delta_seconds(d),
        delta_subsec_nanos(r) == -delta_subsec_nanos(d),
{
    -d
}

} // verus!
