//! Conversions between duration types as traits, and the time that lies
//! between two points in time.
use vstd::prelude::*;
use vstd::std_specs::convert::FromSpecImpl;
use core::time::Duration;
use std::time::{Instant, SystemTime, SystemTimeError};
use chrono::{NaiveDate, NaiveDateTime, NaiveTime};
use crate::binary64::Binary64;
use crate::calendar::{calendar_holds, delta_seconds, delta_subsec_nanos};
use crate::conversion::{seconds_of_calendar, seconds_of_parts, std_parts};
use crate::duration::FloatDuration;
use crate::error::OutOfRangeError;
use crate::monotonic::{duration_secs, duration_subsec_nanos};

verus! {

/// A fallible conversion from one duration representation to another.
pub trait FromDuration<T>: Sized {
    type Error;

    /// Whether `to` is what the conversion of `from` gives: which values
    /// convert, into what, and which are refused. An implementation that
    /// does not say is bound to nothing.
    open spec fn converts(from: T, to: Result<Self, Self::Error>) -> bool {
        true
    }

    /// Convert `from` into a `Self` object.
    fn from_duration(from: T) -> (r: Result<Self, Self::Error>)
        ensures
            Self::converts(from, r),
    ;
}

/// A fallible conversion that consumes `self`.
///
/// Like `std::convert::Into`, this trait is implemented for every
/// implementation of `FromDuration` and is not meant to be implemented by
/// hand.
pub trait IntoDuration<T>: Sized {
    type Error;

    /// Convert `self` into a `T` object.
    fn into_duration(self) -> Result<T, Self::Error>;
}

impl<T, U> IntoDuration<U> for T where U: FromDuration<T> {
    type Error = U::Error;

    /// The conversion that `U` has from `T`, applied to `self`.
    fn into_duration(self) -> (r: Result<U, U::Error>)
        ensures
            U::converts(self, r),
    {
        U::from_duration(self)
    }
}

/// A specific point in time.
///
/// Between two values of a type that implements `TimePoint` a
/// `FloatDuration` can be computed, in either direction.
pub trait TimePoint<Rhs = Self> {
    /// The type returned if there is an error computing the duration.
    type Error;

    /// The amount of time between two `TimePoint`s.
    fn float_duration_since(self, rhs: Rhs) -> Result<FloatDuration, Self::Error>;
}

impl FromDuration<Duration> for FloatDuration {
    type Error = ();

    /// Every `std::time::Duration` converts, to the count of seconds that
    /// its seconds and nanoseconds make.
    open spec fn converts(from: Duration, to: Result<FloatDuration, ()>) -> bool {
        to matches Ok(d) && d@ == seconds_of_parts(
            duration_secs(from),
            duration_subsec_nanos(from),
        )
    }

    fn from_duration(from: Duration) -> (r: Result<FloatDuration, ()>) {
        Ok(FloatDuration::from_std(from))
    }
}

impl FromDuration<chrono::TimeDelta> for FloatDuration {
    type Error = ();

    /// Every `chrono::Duration` converts, to the count of seconds that its
    /// seconds and nanoseconds make.
    open spec fn converts(from: chrono::TimeDelta, to: Result<FloatDuration, ()>) -> bool {
        to matches Ok(d) && d@ == seconds_of_calendar(
            delta_seconds(from),
            delta_subsec_nanos(from),
        )
    }

    fn from_duration(from: chrono::TimeDelta) -> (r: Result<FloatDuration, ()>) {
        Ok(FloatDuration::from_chrono(from))
    }
}

impl FromDuration<FloatDuration> for Duration {
    type Error = OutOfRangeError;

    /// A duration converts exactly where it has seconds and nanoseconds
    /// for a `std::time::Duration`, into the one with these parts.
    open spec fn converts(from: FloatDuration, to: Result<Duration, OutOfRangeError>) -> bool {
        match to {
            Ok(d) => std_parts(from@) == Some((duration_secs(d), duration_subsec_nanos(d))),
            Err(_) => std_parts(from@).is_none(),
        }
    }

    fn from_duration(from: FloatDuration) -> (r: Result<Duration, OutOfRangeError>) {
        from.to_std()
    }
}

impl FromDuration<FloatDuration> for chrono::TimeDelta {
    type Error = OutOfRangeError;

    /// A duration converts exactly where its length has seconds and
    /// nanoseconds within `i64::MAX` milliseconds, into the
    /// `chrono::Duration` with these parts and the sign of the duration.
    open spec fn converts(
        from: FloatDuration,
        to: Result<chrono::TimeDelta, OutOfRangeError>,
    ) -> bool {
        match to {
            Ok(d) => {
                &&& std_parts(Binary64::compose(false, from@.magnitude())) matches Some(parts)
                &&& calendar_holds(parts.0, parts.1)
                &&& delta_seconds(d) == if from@.sign() {
                    -(parts.0 as int)
                } else {
                    parts.0 as int
                }
                &&& delta_subsec_nanos(d) == if from@.sign() {
                    -(parts.1 as int)
                } else {
                    parts.1 as int
                }
            },
            Err(_) => std_parts(Binary64::compose(false, from@.magnitude())) matches Some(
                parts,
            ) ==> !calendar_holds(parts.0, parts.1),
        }
    }

    fn from_duration(from: FloatDuration) -> (r: Result<chrono::TimeDelta, OutOfRangeError>) {
        from.to_chrono()
    }
}

impl From<Duration> for FloatDuration {
    fn from(from: Duration) -> (r: FloatDuration) {
        proof {
            FloatDuration::lemma_seconds_view(
                seconds_of_parts(duration_secs(from), duration_subsec_nanos(from)),
            );
        }
        let r = FloatDuration::from_std(from);
        proof {
            FloatDuration::lemma_view_determines(
                r,
                FloatDuration::seconds(
                    seconds_of_parts(duration_secs(from), duration_subsec_nanos(from)),
                ),
            );
        }
        r
    }
}

impl FromSpecImpl<Duration> for FloatDuration {
    open spec fn obeys_from_spec() -> bool {
        true
    }

    open spec fn from_spec(from: Duration) -> FloatDuration {
        FloatDuration::seconds(seconds_of_parts(duration_secs(from), duration_subsec_nanos(from)))
    }
}

impl From<chrono::TimeDelta> for FloatDuration {
    fn from(from: chrono::TimeDelta) -> (r: FloatDuration) {
        proof {
            FloatDuration::lemma_seconds_view(
                seconds_of_calendar(delta_seconds(from), delta_subsec_nanos(from)),
            );
        }
        let r = FloatDuration::from_chrono(from);
        proof {
            FloatDuration::lemma_view_determines(
                r,
                FloatDuration::seconds(
                    seconds_of_calendar(delta_seconds(from), delta_subsec_nanos(from)),
                ),
            );
        }
        r
    }
}

impl FromSpecImpl<chrono::TimeDelta> for FloatDuration {
    open spec fn obeys_from_spec() -> bool {
        true
    }

    open spec fn from_spec(from: chrono::TimeDelta) -> FloatDuration {
        FloatDuration::seconds(seconds_of_calendar(delta_seconds(from), delta_subsec_nanos(from)))
    }
}

/// `std::time::Instant`, a point on the monotonic clock, carried through as
/// it is.
#[verifier::external_type_specification]
#[verifier::external_body]
pub struct ExInstant(Instant);

/// `std::time::SystemTime`, a point on the system clock, carried through as
/// it is.
#[verifier::external_type_specification]
#[verifier::external_body]
pub struct ExSystemTime(SystemTime);

/// `std::time::SystemTimeError`, the error of `SystemTime::duration_since`,
/// carried through as it is.
#[verifier::external_type_specification]
#[verifier::external_body]
pub struct ExSystemTimeError(SystemTimeError);

/// `chrono::NaiveDate`, a calendar date, carried through as it is.
#[verifier::external_type_specification]
#[verifier::external_body]
pub struct ExNaiveDate(NaiveDate);

/// `chrono::NaiveTime`, a time of day, carried through as it is.
#[verifier::external_type_specification]
#[verifier::external_body]
pub struct ExNaiveTime(NaiveTime);

/// `chrono::NaiveDateTime`, a date with a time of day, carried through as it
/// is.
#[verifier::external_type_specification]
#[verifier::external_body]
pub struct ExNaiveDateTime(NaiveDateTime);

/// What `Instant::saturating_duration_since` gives for two points on the
/// monotonic clock: the seconds and the nanoseconds of the time from
/// `earlier` to `later`, which are both zero where `earlier` is the later of
/// the two.
pub uninterp spec fn instant_span(later: Instant, earlier: Instant) -> (u64, u32);

/// `Instant::saturating_duration_since`: the time from `earlier` to `later`
/// on the monotonic clock, and no time at all where `earlier` is the later
/// one.
#[verifier::external_body]
fn instant_since(later: Instant, earlier: Instant) -> (d: Duration)
    ensures
        instant_span(later, earlier) == (duration_secs(d), duration_subsec_nanos(d)),
{
    later.saturating_duration_since(earlier)
}

/// What `SystemTime::duration_since` gives for two points on the system
/// clock: the seconds and the nanoseconds of the time from `earlier` to
/// `later`, and nothing where `earlier` is the later of the two.
pub uninterp spec fn system_time_span(later: SystemTime, earlier: SystemTime) -> Option<(u64, u32)>;

/// `SystemTime::duration_since`: the time from `earlier` to `later` on the
/// system clock, or the error of that clock where `earlier` is the later one.
/// The outcome depends on the two points alone, and `system_time_span` is
/// its name.
#[verifier::external_body]
fn system_time_since(later: SystemTime, earlier: SystemTime) -> (r: Result<
    Duration,
    SystemTimeError,
>)
    ensures
        match r {
            Ok(d) => system_time_span(later, earlier) == Some(
                (duration_secs(d), duration_subsec_nanos(d)),
            ),
            Err(_) => system_time_span(later, earlier).is_none(),
        },
{
    later.duration_since(earlier)
}

/// What `NaiveDate::signed_duration_since` gives for `later` and `earlier`: the
/// whole seconds of the signed time from `earlier` to `later`, and the
/// nanoseconds beyond them, with the sign of the whole.
pub uninterp spec fn naive_date_span(later: NaiveDate, earlier: NaiveDate) -> (i64, i32);

/// `NaiveDate::signed_duration_since`: the signed time from `earlier` to
/// `later`.
#[verifier::external_body]
fn naive_date_since(later: NaiveDate, earlier: NaiveDate) -> (d: chrono::TimeDelta)
    ensures
        naive_date_span(later, earlier) == (delta_seconds(d), delta_subsec_nanos(d)),
{
    later.signed_duration_since(earlier)
}

/// What `NaiveTime::signed_duration_since` gives for `later` and `earlier`: the
/// whole seconds of the signed time from `earlier` to `later`, and the
/// nanoseconds beyond them, with the sign of the whole.
pub uninterp spec fn naive_time_span(later: NaiveTime, earlier: NaiveTime) -> (i64, i32);

/// `NaiveTime::signed_duration_since`: the signed time from `earlier` to
/// `later`.
#[verifier::external_body]
fn naive_time_since(later: NaiveTime, earlier: NaiveTime) -> (d: chrono::TimeDelta)
    ensures
        naive_time_span(later, earlier) == (delta_seconds(d), delta_subsec_nanos(d)),
{
    later.signed_duration_since(earlier)
}

/// What `NaiveDateTime::signed_duration_since` gives for `later` and `earlier`: the
/// whole seconds of the signed time from `earlier` to `later`, and the
/// nanoseconds beyond them, with the sign of the whole.
pub uninterp spec fn naive_date_time_span(later: NaiveDateTime, earlier: NaiveDateTime) -> (i64, i32);

/// `NaiveDateTime::signed_duration_since`: the signed time from `earlier` to
/// `later`.
#[verifier::external_body]
fn naive_date_time_since(later: NaiveDateTime, earlier: NaiveDateTime) -> (d: chrono::TimeDelta)
    ensures
        naive_date_time_span(later, earlier) == (delta_seconds(d), delta_subsec_nanos(d)),
{
    later.signed_duration_since(earlier)
}

/// What an outcome of the system clock means as a `FloatDuration`: the
/// elapsed time where the clock gave one, and the clock's own error where
/// the earlier point turned out to lie after the later one.
pub fn elapsed_on_system_clock(outcome: Result<Duration, SystemTimeError>) -> (r: Result<
    FloatDuration,
    SystemTimeError,
>)
    ensures
        match outcome {
            Ok(d) => r matches Ok(elapsed) && elapsed@ == seconds_of_parts(
                duration_secs(d),
                duration_subsec_nanos(d),
            ),
            Err(e) => r == Err::<FloatDuration, SystemTimeError>(e),
        },
{
    match outcome {
        Ok(d) => Ok(FloatDuration::from_std(d)),
        Err(e) => Err(e),
    }
}

impl TimePoint for Instant {
    type Error = ();

    /// The time from `since` to `self` on the monotonic clock. It never
    /// fails.
    fn float_duration_since(self, since: Instant) -> (r: Result<FloatDuration, ()>)
        ensures
            r matches Ok(elapsed) && elapsed@ == seconds_of_parts(
                instant_span(self, since).0,
                instant_span(self, since).1,
            ),
    {
        Ok(FloatDuration::from_std(instant_since(self, since)))
    }
}

impl TimePoint for SystemTime {
    type Error = SystemTimeError;

    /// The time from `since` to `self` on the system clock, or the clock's
    /// error where `since` lies after `self`: the clock is not asked to be
    /// monotonic, and an order that it does not keep is handed on to the
    /// caller, not turned into no time at all.
    fn float_duration_since(self, since: SystemTime) -> (r: Result<FloatDuration, SystemTimeError>)
        ensures
            match r {
                Ok(elapsed) => system_time_span(self, since) matches Some(parts) && elapsed@
                    == seconds_of_parts(parts.0, parts.1),
                Err(_) => system_time_span(self, since).is_none(),
            },
    {
        elapsed_on_system_clock(system_time_since(self, since))
    }
}

impl TimePoint for NaiveDate {
    type Error = ();

    /// The signed time from `since` to `self`. It never fails.
    fn float_duration_since(self, since: NaiveDate) -> (r: Result<FloatDuration, ()>)
        ensures
            r matches Ok(elapsed) && elapsed@ == seconds_of_calendar(
                naive_date_span(self, since).0,
                naive_date_span(self, since).1,
            ),
    {
        Ok(FloatDuration::from_chrono(naive_date_since(self, since)))
    }
}

impl TimePoint for NaiveTime {
    type Error = ();

    /// The signed time from `since` to `self`. It never fails.
    fn float_duration_since(self, since: NaiveTime) -> (r: Result<FloatDuration, ()>)
        ensures
            r matches Ok(elapsed) && elapsed@ == seconds_of_calendar(
                naive_time_span(self, since).0,
                naive_time_span(self, since).1,
            ),
    {
        Ok(FloatDuration::from_chrono(naive_time_since(self, since)))
    }
}

impl TimePoint for NaiveDateTime {
    type Error = ();

    /// The signed time from `since` to `self`. It never fails.
    fn float_duration_since(self, since: NaiveDateTime) -> (r: Result<FloatDuration, ()>)
        ensures
            r matches Ok(elapsed) && elapsed@ == seconds_of_calendar(
                naive_date_time_span(self, since).0,
                naive_date_time_span(self, since).1,
            ),
    {
        Ok(FloatDuration::from_chrono(naive_date_time_since(self, since)))
    }
}

} // verus!
