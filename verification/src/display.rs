//! The free-text summary of a duration: one number and the name of a unit.
use vstd::prelude::*;
use crate::arithmetic::{div_spec, mul_spec};
use crate::binary64::{Binary64, ieee_lt_spec};
use crate::duration::{
    FloatDuration, MICROS_PER_SEC, MILLIS_PER_SEC, NANOS_PER_SEC, SECS_PER_DAY, SECS_PER_HOUR,
    SECS_PER_MINUTE, SECS_PER_YEAR,
};

verus! {

/// The double `1.0`, as its bit pattern.
pub const ONE: u64 = 0x3ff0_0000_0000_0000;

/// The double nearest to one thousandth, as its bit pattern.
pub const ONE_THOUSANDTH: u64 = 0x3f50_624d_d2f1_a9fc;

/// The double nearest to one millionth, as its bit pattern.
pub const ONE_MILLIONTH: u64 = 0x3eb0_c6f7_a0b5_ed8d;

/// The units that a duration is summarised in.
#[derive(Debug, Clone, Copy, PartialEq, Eq, Structural)]
pub enum TimeUnit {
    Years,
    Days,
    Hours,
    Minutes,
    Seconds,
    Milliseconds,
    Microseconds,
    Nanoseconds,
}

impl TimeUnit {
    /// The plural name of the unit.
    pub open spec fn plural_name_spec(self) -> Seq<char> {
        match self {
            TimeUnit::Years => "years"@,
            TimeUnit::Days => "days"@,
            TimeUnit::Hours => "hours"@,
            TimeUnit::Minutes => "minutes"@,
            TimeUnit::Seconds => "seconds"@,
            TimeUnit::Milliseconds => "milliseconds"@,
            TimeUnit::Microseconds => "microseconds"@,
            TimeUnit::Nanoseconds => "nanoseconds"@,
        }
    }

    /// The plural name of the unit.
    pub fn plural_name(&self) -> (name: &'static str)
        ensures
            name@ == self.plural_name_spec(),
    {
        match self {
            TimeUnit::Years => "years",
            TimeUnit::Days => "days",
            TimeUnit::Hours => "hours",
            TimeUnit::Minutes => "minutes",
            TimeUnit::Seconds => "seconds",
            TimeUnit::Milliseconds => "milliseconds",
            TimeUnit::Microseconds => "microseconds",
            TimeUnit::Nanoseconds => "nanoseconds",
        }
    }
}

/// The coarsest unit that a count of seconds is strictly more than one of,
/// from years down to microseconds, and nanoseconds where it is more than
/// none of them. A count equal to one day is thus given in hours.
pub open spec fn display_unit_spec(x: Binary64) -> TimeUnit {
    if ieee_lt_spec(Binary64::from_bits(SECS_PER_YEAR), x) {
        TimeUnit::Years
    } else if ieee_lt_spec(Binary64::from_bits(SECS_PER_DAY), x) {
        TimeUnit::Days
    } else if ieee_lt_spec(Binary64::from_bits(SECS_PER_HOUR), x) {
        TimeUnit::Hours
    } else if ieee_lt_spec(Binary64::from_bits(SECS_PER_MINUTE), x) {
        TimeUnit::Minutes
    } else if ieee_lt_spec(Binary64::from_bits(ONE), x) {
        TimeUnit::Seconds
    } else if ieee_lt_spec(Binary64::from_bits(ONE_THOUSANDTH), x) {
        TimeUnit::Milliseconds
    } else if ieee_lt_spec(Binary64::from_bits(ONE_MILLIONTH), x) {
        TimeUnit::Microseconds
    } else {
        TimeUnit::Nanoseconds
    }
}

/// A count of seconds in the given unit.
pub open spec fn in_unit_spec(x: Binary64, unit: TimeUnit) -> Binary64 {
    match unit {
        TimeUnit::Years => div_spec(x, Binary64::from_bits(SECS_PER_YEAR)),
        TimeUnit::Days => div_spec(x, Binary64::from_bits(SECS_PER_DAY)),
        TimeUnit::Hours => div_spec(x, Binary64::from_bits(SECS_PER_HOUR)),
        TimeUnit::Minutes => div_spec(x, Binary64::from_bits(SECS_PER_MINUTE)),
        TimeUnit::Seconds => x,
        TimeUnit::Milliseconds => mul_spec(x, Binary64::from_bits(MILLIS_PER_SEC)),
        TimeUnit::Microseconds => mul_spec(x, Binary64::from_bits(MICROS_PER_SEC)),
        TimeUnit::Nanoseconds => mul_spec(x, Binary64::from_bits(NANOS_PER_SEC)),
    }
}

impl FloatDuration {
    /// The unit that the summary of this duration is given in.
    pub fn display_unit(&self) -> (unit: TimeUnit)
        ensures
            unit == display_unit_spec(self@),
    {
        let x = self.as_seconds();
        if Binary64::from_bits(SECS_PER_YEAR).ieee_lt(x) {
            TimeUnit::Years
        } else if Binary64::from_bits(SECS_PER_DAY).ieee_lt(x) {
            TimeUnit::Days
        } else if Binary64::from_bits(SECS_PER_HOUR).ieee_lt(x) {
            TimeUnit::Hours
        } else if Binary64::from_bits(SECS_PER_MINUTE).ieee_lt(x) {
            TimeUnit::Minutes
        } else if Binary64::from_bits(ONE).ieee_lt(x) {
            TimeUnit::Seconds
        } else if Binary64::from_bits(ONE_THOUSANDTH).ieee_lt(x) {
            TimeUnit::Milliseconds
        } else if Binary64::from_bits(ONE_MILLIONTH).ieee_lt(x) {
            TimeUnit::Microseconds
        } else {
            TimeUnit::Nanoseconds
        }
    }

    /// The duration as a number of the given unit.
    pub fn in_unit(&self, unit: TimeUnit) -> (r: Binary64)
        ensures
            r == in_unit_spec(self@, unit),
    {
        match unit {
            TimeUnit::Years => self.as_years(),
            TimeUnit::Days => self.as_days(),
            TimeUnit::Hours => self.as_hours(),
            TimeUnit::Minutes => self.as_minutes(),
            TimeUnit::Seconds => self.as_seconds(),
            TimeUnit::Milliseconds => self.as_milliseconds(),
            TimeUnit::Microseconds => self.as_microseconds(),
            TimeUnit::Nanoseconds => self.as_nanoseconds(),
        }
    }

    /// The number that the summary of this duration shows: the duration in
    /// its display unit.
    pub fn display_value(&self) -> (r: Binary64)
        ensures
            r == in_unit_spec(self@, display_unit_spec(self@)),
    {
        self.in_unit(self.display_unit())
    }

    /// The summary of this duration: `number`, which is the display value as
    /// the caller has written it, a space, and the plural name of the
    /// display unit.
    pub fn to_text_with(&self, number: &str) -> (s: String)
        ensures
            s@ == number@ + " "@ + display_unit_spec(self@).plural_name_spec(),
    {
        let mut s = String::from_str(number);
        s.append(" ");
        s.append(self.display_unit().plural_name());
        s
    }
}

} // verus!
