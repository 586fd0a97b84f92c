//! Floating-point duration type `FloatDuration` and helpers.
use vstd::prelude::*;
use crate::arithmetic::{add_spec, div_spec, mul_spec, sub_spec};
use crate::binary64::{Binary64, ieee_eq_spec, ieee_lt_spec};

verus! {

/// Number of nanoseconds in a second, as the bit pattern of that double.
pub const NANOS_PER_SEC: u64 = 0x41cd_cd65_0000_0000;

/// Number of microseconds in a second, as the bit pattern of that double.
pub const MICROS_PER_SEC: u64 = 0x412e_8480_0000_0000;

/// Number of milliseconds in a second, as the bit pattern of that double.
pub const MILLIS_PER_SEC: u64 = 0x408f_4000_0000_0000;

/// Number of seconds in a minute, as the bit pattern of that double.
pub const SECS_PER_MINUTE: u64 = 0x404e_0000_0000_0000;

/// Number of seconds in an hour, as the bit pattern of that double.
pub const SECS_PER_HOUR: u64 = 0x40ac_2000_0000_0000;

/// Number of seconds in a day, as the bit pattern of that double.
pub const SECS_PER_DAY: u64 = 0x40f5_1800_0000_0000;

/// Number of seconds in a year of 365 days, as the bit pattern of that double.
pub const SECS_PER_YEAR: u64 = 0x417e_1338_0000_0000;

/// A time duration stored as one double: a count of seconds, with a sign.
///
/// It is made for arithmetic rather than for calendars: a year is 365 days,
/// and the value is only as precise as a double is.
#[derive(Debug, Clone, Copy)]
pub struct FloatDuration {
    secs: Binary64,
}

impl View for FloatDuration {
    type V = Binary64;

    /// The count of seconds.
    closed spec fn view(&self) -> Binary64 {
        self.secs
    }
}

/// The sum of the counts of seconds of a sequence of durations, added from
/// the left, starting from zero.
pub open spec fn sum_spec(items: Seq<FloatDuration>) -> Binary64
    decreases items.len(),
{
    if items.len() == 0 {
        Binary64::from_bits(0)
    } else {
        add_spec(sum_spec(items.drop_last()), items.last()@)
    }
}

impl FloatDuration {
    /// Two durations with the same count of seconds are the same duration.
    pub proof fn lemma_view_determines(a: FloatDuration, b: FloatDuration)
        requires
            a@ == b@,
        ensures
            a == b,
    {
    }

    /// Create a new `FloatDuration` representing a number of years, each of
    /// exactly 365 days.
    pub fn years(years: Binary64) -> (r: FloatDuration)
        ensures
            r@ == mul_spec(years, Binary64::from_bits(SECS_PER_YEAR)),
    {
        FloatDuration { secs: years.mul(Binary64::from_bits(SECS_PER_YEAR)) }
    }

    /// Create a new `FloatDuration` representing a number of days.
    pub fn days(days: Binary64) -> (r: FloatDuration)
        ensures
            r@ == mul_spec(days, Binary64::from_bits(SECS_PER_DAY)),
    {
        FloatDuration { secs: days.mul(Binary64::from_bits(SECS_PER_DAY)) }
    }

    /// Create a new `FloatDuration` representing a number of hours.
    pub fn hours(hours: Binary64) -> (r: FloatDuration)
        ensures
            r@ == mul_spec(hours, Binary64::from_bits(SECS_PER_HOUR)),
    {
        FloatDuration { secs: hours.mul(Binary64::from_bits(SECS_PER_HOUR)) }
    }

    /// Create a new `FloatDuration` representing a number of minutes.
    pub fn minutes(mins: Binary64) -> (r: FloatDuration)
        ensures
            r@ == mul_spec(mins, Binary64::from_bits(SECS_PER_MINUTE)),
    {
        FloatDuration { secs: mins.mul(Binary64::from_bits(SECS_PER_MINUTE)) }
    }

    /// The duration of the given count of seconds.
    pub closed spec fn seconds_spec(secs: Binary64) -> FloatDuration {
        FloatDuration { secs }
    }

    /// The duration of a count of seconds has that count.
    pub broadcast proof fn lemma_seconds_view(secs: Binary64)
        ensures
            (#[trigger] FloatDuration::seconds_spec(secs))@ == secs,
    {
    }

    /// Create a new `FloatDuration` representing a number of seconds.
    #[verifier::when_used_as_spec(seconds_spec)]
    pub fn seconds(secs: Binary64) -> (r: FloatDuration)
        ensures
            r == FloatDuration::seconds_spec(secs),
            r@ == secs,
    {
        FloatDuration { secs }
    }

    /// Create a new `FloatDuration` representing a number of milliseconds.
    pub fn milliseconds(millis: Binary64) -> (r: FloatDuration)
        ensures
            r@ == div_spec(millis, Binary64::from_bits(MILLIS_PER_SEC)),
    {
        FloatDuration { secs: millis.div(Binary64::from_bits(MILLIS_PER_SEC)) }
    }

    /// Create a new `FloatDuration` representing a number of microseconds.
    pub fn microseconds(micros: Binary64) -> (r: FloatDuration)
        ensures
            r@ == div_spec(micros, Binary64::from_bits(MICROS_PER_SEC)),
    {
        FloatDuration { secs: micros.div(Binary64::from_bits(MICROS_PER_SEC)) }
    }

    /// Create a new `FloatDuration` representing a number of nanoseconds.
    pub fn nanoseconds(nanos: Binary64) -> (r: FloatDuration)
        ensures
            r@ == div_spec(nanos, Binary64::from_bits(NANOS_PER_SEC)),
    {
        FloatDuration { secs: nanos.div(Binary64::from_bits(NANOS_PER_SEC)) }
    }

    /// Return the total number of fractional years represented by the
    /// `FloatDuration`, each of exactly 365 days.
    pub fn as_years(&self) -> (r: Binary64)
        ensures
            r == div_spec(self@, Binary64::from_bits(SECS_PER_YEAR)),
    {
        self.secs.div(Binary64::from_bits(SECS_PER_YEAR))
    }

    /// Return the total number of fractional days represented by the `FloatDuration`.
    pub fn as_days(&self) -> (r: Binary64)
        ensures
            r == div_spec(self@, Binary64::from_bits(SECS_PER_DAY)),
    {
        self.secs.div(Binary64::from_bits(SECS_PER_DAY))
    }

    /// Return the total number of fractional hours represented by the `FloatDuration`.
    pub fn as_hours(&self) -> (r: Binary64)
        ensures
            r == div_spec(self@, Binary64::from_bits(SECS_PER_HOUR)),
    {
        self.secs.div(Binary64::from_bits(SECS_PER_HOUR))
    }

    /// Return the total number of fractional minutes represented by the `FloatDuration`.
    pub fn as_minutes(&self) -> (r: Binary64)
        ensures
            r == div_spec(self@, Binary64::from_bits(SECS_PER_MINUTE)),
    {
        self.secs.div(Binary64::from_bits(SECS_PER_MINUTE))
    }

    /// Return the total number of fractional seconds represented by the `FloatDuration`.
    pub fn as_seconds(&self) -> (r: Binary64)
        ensures
            r == self@,
    {
        self.secs
    }

    /// Return the total number of fractional milliseconds represented by the `FloatDuration`.
    pub fn as_milliseconds(&self) -> (r: Binary64)
        ensures
            r == mul_spec(self@, Binary64::from_bits(MILLIS_PER_SEC)),
    {
        self.secs.mul(Binary64::from_bits(MILLIS_PER_SEC))
    }

    /// Return the total number of fractional microseconds represented by the `FloatDuration`.
    pub fn as_microseconds(&self) -> (r: Binary64)
        ensures
            r == mul_spec(self@, Binary64::from_bits(MICROS_PER_SEC)),
    {
        self.secs.mul(Binary64::from_bits(MICROS_PER_SEC))
    }

    /// Return the total number of fractional nanoseconds represented by the `FloatDuration`.
    pub fn as_nanoseconds(&self) -> (r: Binary64)
        ensures
            r == mul_spec(self@, Binary64::from_bits(NANOS_PER_SEC)),
    {
        self.secs.mul(Binary64::from_bits(NANOS_PER_SEC))
    }

    /// Compute the absolute value of this duration.
    pub fn abs(self) -> (r: FloatDuration)
        ensures
            r@ == Binary64::compose(false, self@.magnitude()),
    {
        FloatDuration { secs: self.secs.abs() }
    }

    /// Return a new `FloatDuration` that represents zero elapsed time.
    pub fn zero() -> (r: FloatDuration)
        ensures
            r@.bits == 0,
    {
        FloatDuration { secs: Binary64 { bits: 0 } }
    }

    /// Returns true if this duration represents zero elapsed time: it
    /// equals `FloatDuration::zero()`, as negative zero does too.
    pub fn is_zero(&self) -> (b: bool)
        ensures
            b == self@.is_zero_spec(),
    {
        self.secs.magnitude_bits() == 0
    }

    /// Returns true if the sign of the duration is positive, as that of
    /// positive zero is.
    pub fn is_positive(&self) -> (b: bool)
        ensures
            b == !self@.sign(),
    {
        self.secs.is_sign_positive()
    }

    /// Returns true if the sign of the duration is negative, as that of
    /// negative zero is.
    pub fn is_negative(&self) -> (b: bool)
        ensures
            b == self@.sign(),
    {
        self.secs.is_sign_negative()
    }

    /// Return a new `FloatDuration` with the minimum possible value: the
    /// finite double of the largest magnitude, negative.
    pub fn min_value() -> (r: FloatDuration)
        ensures
            r@.bits == 0xffef_ffff_ffff_ffff,
    {
        FloatDuration { secs: Binary64 { bits: 0xffef_ffff_ffff_ffff } }
    }

    /// Return a new `FloatDuration` with the maximum possible value: the
    /// finite double of the largest magnitude.
    pub fn max_value() -> (r: FloatDuration)
        ensures
            r@.bits == 0x7fef_ffff_ffff_ffff,
    {
        FloatDuration { secs: Binary64 { bits: 0x7fef_ffff_ffff_ffff } }
    }

    /// The duration of the same length in the other direction.
    pub fn neg(self) -> (r: FloatDuration)
        ensures
            r@ == Binary64::compose(!self@.sign(), self@.magnitude()),
    {
        FloatDuration { secs: self.secs.neg() }
    }

    /// The sum of two durations.
    pub fn add(self, rhs: FloatDuration) -> (r: FloatDuration)
        ensures
            r@ == add_spec(self@, rhs@),
    {
        FloatDuration { secs: self.secs.add(rhs.secs) }
    }

    /// The difference of two durations.
    pub fn sub(self, rhs: FloatDuration) -> (r: FloatDuration)
        ensures
            r@ == sub_spec(self@, rhs@),
    {
        FloatDuration { secs: self.secs.sub(rhs.secs) }
    }

    /// The duration `rhs` times as long.
    pub fn mul(self, rhs: Binary64) -> (r: FloatDuration)
        ensures
            r@ == mul_spec(self@, rhs),
    {
        FloatDuration { secs: self.secs.mul(rhs) }
    }

    /// The duration divided into `rhs` parts. Division by zero gives an
    /// infinite duration or a not-a-number, as it does for doubles.
    pub fn div(self, rhs: Binary64) -> (r: FloatDuration)
        ensures
            r@ == div_spec(self@, rhs),
    {
        FloatDuration { secs: self.secs.div(rhs) }
    }

    /// How many times `rhs` goes into this duration, as a plain number.
    /// Division by a zero duration gives infinity or a not-a-number.
    pub fn div_duration(self, rhs: FloatDuration) -> (r: Binary64)
        ensures
            r == div_spec(self@, rhs@),
    {
        self.secs.div(rhs.secs)
    }

    /// Replace the duration by its sum with `rhs`.
    pub fn add_assign(&mut self, rhs: FloatDuration)
        ensures
            final(self)@ == add_spec(old(self)@, rhs@),
    {
        self.secs = self.secs.add(rhs.secs);
    }

    /// Replace the duration by its difference with `rhs`.
    pub fn sub_assign(&mut self, rhs: FloatDuration)
        ensures
            final(self)@ == sub_spec(old(self)@, rhs@),
    {
        self.secs = self.secs.sub(rhs.secs);
    }

    /// Replace the duration by one `rhs` times as long.
    pub fn mul_assign(&mut self, rhs: Binary64)
        ensures
            final(self)@ == mul_spec(old(self)@, rhs),
    {
        self.secs = self.secs.mul(rhs);
    }

    /// Replace the duration by itself divided into `rhs` parts.
    pub fn div_assign(&mut self, rhs: Binary64)
        ensures
            final(self)@ == div_spec(old(self)@, rhs),
    {
        self.secs = self.secs.div(rhs);
    }

    /// The sum of the durations, added from the left, starting from zero.
    /// No durations sum to zero.
    pub fn sum(items: &[FloatDuration]) -> (r: FloatDuration)
        ensures
            r@ == sum_spec(items@),
    {
        let mut total = FloatDuration::zero();
        let mut i: usize = 0;
        while i < items.len()
            invariant
                i <= items.len(),
                total@ == sum_spec(items@.take(i as int)),
            decreases items.len() - i,
        {
            proof {
                assert(items@.take(i + 1).drop_last() =~= items@.take(i as int));
            }
            total = total.add(items[i]);
            i = i + 1;
        }
        proof {
            assert(items@.take(i as int) =~= items@);
        }
        total
    }

    /// Whether the two durations are numerically equal.
    pub fn ieee_eq(self, other: FloatDuration) -> (b: bool)
        ensures
            b == ieee_eq_spec(self@, other@),
    {
        self.secs.ieee_eq(other.secs)
    }

    /// Whether this duration is numerically shorter than `other`.
    pub fn ieee_lt(self, other: FloatDuration) -> (b: bool)
        ensures
            b == ieee_lt_spec(self@, other@),
    {
        self.secs.ieee_lt(other.secs)
    }
}

impl Binary64 {
    /// The duration `self` times as long as `rhs`: the product with the
    /// number on the left.
    pub fn mul_duration(self, rhs: FloatDuration) -> (r: FloatDuration)
        ensures
            r@ == mul_spec(self, rhs@),
    {
        FloatDuration { secs: self.mul(rhs.secs) }
    }
}

impl Default for FloatDuration {
    fn default() -> (r: FloatDuration)
        ensures
            r@.bits == 0,
    {
        FloatDuration::zero()
    }
}

} // verus!
