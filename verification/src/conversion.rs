//! Conversions between `FloatDuration` and the durations of the standard
//! library and of `chrono`.
use vstd::prelude::*;
use core::time::Duration;
use crate::arithmetic::{add_spec, div_spec, mul_spec};
use crate::binary64::Binary64;
use crate::calendar::{
    calendar_holds, delta_seconds, delta_subsec_nanos, div_toward_zero, negate_delta,
};
use crate::convert::{fract_spec, from_int_spec, saturating_whole, whole_magnitude};
use crate::duration::{FloatDuration, MILLIS_PER_SEC, NANOS_PER_SEC};
use crate::error::OutOfRangeError;
use crate::monotonic::{duration_secs, duration_subsec_nanos, NANOS_IN_SECOND};

verus! {

/// The seconds and nanoseconds that a count of seconds converts to, where a
/// `std::time::Duration` can hold it.
///
/// A count with the sign bit set has no conversion, negative zero included.
/// A not-a-number with a clear sign bit converts to the empty duration. The
/// seconds are the integer part; the nanoseconds are the integer part of the
/// fractional part times a thousand million, and where the rounding of that
/// product reaches a full second, the second is carried.
pub open spec fn std_parts(x: Binary64) -> Option<(u64, u32)> {
    if x.sign() {
        None
    } else if x.is_nan_spec() {
        Some((0u64, 0u32))
    } else if x.is_infinite_spec() || whole_magnitude(x) > u64::MAX {
        None
    } else {
        let nanos = saturating_whole(
            mul_spec(fract_spec(x), Binary64::from_bits(NANOS_PER_SEC)),
            u32::MAX as nat,
        );
        let secs = whole_magnitude(x) + nanos / (NANOS_IN_SECOND as nat);
        if secs > u64::MAX {
            None
        } else {
            Some((secs as u64, (nanos % (NANOS_IN_SECOND as nat)) as u32))
        }
    }
}

/// The count of seconds that `secs` seconds and `nanos` nanoseconds make.
pub open spec fn seconds_of_parts(secs: u64, nanos: u32) -> Binary64 {
    add_spec(
        from_int_spec(secs as int),
        div_spec(from_int_spec(nanos as int), Binary64::from_bits(NANOS_PER_SEC)),
    )
}

/// The count of seconds that a calendar duration of `secs` whole seconds and
/// `nanos` nanoseconds beyond them makes: from its length in nanoseconds
/// where an `i64` holds that, else from its length in whole milliseconds.
pub open spec fn seconds_of_calendar(secs: i64, nanos: i32) -> Binary64 {
    let total = secs * 1_000_000_000 + nanos;
    if i64::MIN <= total <= i64::MAX {
        div_spec(from_int_spec(total), Binary64::from_bits(NANOS_PER_SEC))
    } else {
        div_spec(
            from_int_spec(secs * 1000 + div_toward_zero(nanos as int, 1_000_000)),
            Binary64::from_bits(MILLIS_PER_SEC),
        )
    }
}

impl FloatDuration {
    /// The whole seconds and the nanoseconds of this duration, for a
    /// representation without negative values and with 64 bits of seconds.
    pub fn to_std_parts(&self) -> (r: Option<(u64, u32)>)
        ensures
            r == std_parts(self@),
            r matches Some(parts) ==> parts.1 < NANOS_IN_SECOND,
    {
        let x = self.as_seconds();
        if x.is_sign_negative() {
            return None;
        }
        if x.is_nan() {
            return Some((0, 0));
        }
        if x.is_infinite() {
            return None;
        }
        let whole = match x.whole_u64() {
            Some(whole) => whole,
            None => {
                return None;
            },
        };
        let nanos: u32 = x.fract().mul(Binary64::from_bits(NANOS_PER_SEC)).to_u32();
        let carry: u32 = nanos / NANOS_IN_SECOND;
        if carry as u64 > u64::MAX - whole {
            return None;
        }
        Some((whole + carry as u64, nanos % NANOS_IN_SECOND))
    }

    /// Create a `std::time::Duration` object from a `FloatDuration`.
    ///
    /// # Errors
    /// `std::time::Duration` does not support negative values or seconds
    /// greater than `u64::MAX`. This function returns an `OutOfRangeError`
    /// if the `FloatDuration` value is outside of either of those bounds.
    pub fn to_std(&self) -> (r: Result<Duration, OutOfRangeError>)
        ensures
            match r {
                Ok(d) => std_parts(self@) == Some((duration_secs(d), duration_subsec_nanos(d))),
                Err(_) => std_parts(self@).is_none(),
            },
    {
        match self.to_std_parts() {
            Some((secs, nanos)) => Ok(Duration::new(secs, nanos)),
            None => Err(OutOfRangeError::new()),
        }
    }

    /// Create a `FloatDuration` object from a `std::time::Duration`.
    pub fn from_std(duration: Duration) -> (r: FloatDuration)
        ensures
            r@ == seconds_of_parts(duration_secs(duration), duration_subsec_nanos(duration)),
    {
        let secs = Binary64::from_u64(duration.as_secs());
        let nanos = Binary64::from_u32(duration.subsec_nanos());
        FloatDuration::seconds(secs.add(nanos.div(Binary64::from_bits(NANOS_PER_SEC))))
    }

    /// Create a `chrono::Duration` object from a `FloatDuration`.
    ///
    /// The length goes through `std::time::Duration` and the sign is put back
    /// afterwards.
    ///
    /// # Errors
    /// An `OutOfRangeError` where the length has no `std::time::Duration`,
    /// or one longer than `i64::MAX` milliseconds.
    pub fn to_chrono(&self) -> (r: Result<chrono::TimeDelta, OutOfRangeError>)
        ensures
            match r {
                Ok(d) => {
                    &&& std_parts(Binary64::compose(false, self@.magnitude())) matches Some(parts)
                    &&& calendar_holds(parts.0, parts.1)
                    &&& delta_seconds(d) == if self@.sign() {
                        -(parts.0 as int)
                    } else {
                        parts.0 as int
                    }
                    &&& delta_subsec_nanos(d) == if self@.sign() {
                        -(parts.1 as int)
                    } else {
                        parts.1 as int
                    }
                },
                Err(_) => std_parts(Binary64::compose(false, self@.magnitude())) matches Some(
                    parts,
                ) ==> !calendar_holds(parts.0, parts.1),
            },
    {
        let is_negative = self.is_negative();
        let std_duration = match self.abs().to_std() {
            Ok(d) => d,
            Err(e) => {
                return Err(e);
            },
        };
        let chrono_duration = match chrono::TimeDelta::from_std(std_duration) {
            Ok(d) => d,
            Err(e) => {
                return Err(OutOfRangeError::from(e));
            },
        };
        if is_negative {
            Ok(negate_delta(chrono_duration))
        } else {
            Ok(chrono_duration)
        }
    }

    /// Create a `FloatDuration` object from a `chrono::Duration`.
    ///
    /// `chrono::Duration` gives its length in nanoseconds only where an
    /// `i64` holds it. For a longer one the length in whole milliseconds is
    /// taken: what lies below a millisecond is then left out. The
    /// milliseconds are counted here, from the seconds and the nanoseconds of
    /// the duration, so that a duration beyond `i64::MAX` milliseconds, which
    /// the arithmetic of `chrono` can give, is converted like any other.
    pub fn from_chrono(duration: chrono::TimeDelta) -> (r: FloatDuration)
        ensures
            r@ == seconds_of_calendar(delta_seconds(duration), delta_subsec_nanos(duration)),
    {
        match duration.num_nanoseconds() {
            Some(nanos) => FloatDuration::nanoseconds(Binary64::from_i64(nanos)),
            None => {
                let secs: i128 = duration.num_seconds() as i128;
                let nanos: i128 = duration.subsec_nanos() as i128;
                let below_second: i128 = if nanos < 0 {
                    -((-nanos) / 1_000_000)
                } else {
                    nanos / 1_000_000
                };
                let millis: i128 = secs * 1000 + below_second;
                FloatDuration::milliseconds(Binary64::from_i128(millis))
            },
        }
    }
}

} // verus!
