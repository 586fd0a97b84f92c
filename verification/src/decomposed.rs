//! A duration taken apart into days, hours, minutes and seconds.
use vstd::prelude::*;
use crate::arithmetic::{add_spec, mul_spec};
use crate::binary64::{Binary64, ieee_lt_spec};
use crate::convert::{fract_spec, from_int_spec, saturating_whole, whole_magnitude};
use crate::duration::{FloatDuration, SECS_PER_DAY, SECS_PER_HOUR, SECS_PER_MINUTE};
use crate::text::{decimal, decimal_text, two_digit_text, two_digits};

verus! {

/// A duration decomposed into components.
///
/// `DecomposedTime` is a more readable form of a `FloatDuration`: the length
/// of the duration in days, hours, minutes and seconds, none of them
/// negative, and the direction in the one field `sign`.
#[derive(Debug, Clone, Copy, PartialEq, PartialOrd)]
pub struct DecomposedTime {
    pub days: u32,
    pub hours: u32,
    pub minutes: u32,
    pub seconds: u32,
    /// What is left below one second.
    pub fractional_seconds: Binary64,
    /// `1` or `-1`.
    pub sign: i8,
}

/// The seconds in a day.
pub const DAY: u32 = 86_400;

/// The seconds in an hour.
pub const HOUR: u32 = 3_600;

/// The seconds in a minute.
pub const MINUTE: u32 = 60;

/// The length of `x` taken apart.
///
/// For a finite `x`, the whole seconds of its length are divided, exactly,
/// into days, the hours of what is left of a day, the minutes of what is
/// left of an hour, and the seconds; the fractional seconds are the
/// fractional part of the length. Days that a `u32` cannot hold are given
/// as the largest `u32`. An infinite length has the largest count of days
/// and nothing else, and the length of a not-a-number has no days either;
/// their fractional seconds are not a number.
///
/// The sign is `-1` where `x` is below zero and `1` everywhere else.
pub open spec fn decompose_spec(x: Binary64) -> DecomposedTime {
    let length = Binary64::compose(false, x.magnitude());
    let sign = if ieee_lt_spec(x, Binary64::from_bits(0)) {
        -1i8
    } else {
        1i8
    };
    if length.is_finite_spec() {
        let whole = whole_magnitude(length);
        DecomposedTime {
            days: if whole / (DAY as nat) > u32::MAX {
                u32::MAX
            } else {
                (whole / (DAY as nat)) as u32
            },
            hours: (whole % (DAY as nat) / (HOUR as nat)) as u32,
            minutes: (whole % (HOUR as nat) / (MINUTE as nat)) as u32,
            seconds: (whole % (MINUTE as nat)) as u32,
            fractional_seconds: fract_spec(length),
            sign,
        }
    } else {
        DecomposedTime {
            days: saturating_whole(length, u32::MAX as nat) as u32,
            hours: 0,
            minutes: 0,
            seconds: 0,
            fractional_seconds: fract_spec(length),
            sign,
        }
    }
}

/// The count of seconds that the components make, with their sign:
/// `days * 86400 + hours * 3600 + minutes * 60 + seconds + fractional_seconds`,
/// added in this order, and negated where the sign is negative.
pub open spec fn recompose_spec(d: DecomposedTime) -> Binary64 {
    let day = Binary64::from_bits(SECS_PER_DAY);
    let hour = Binary64::from_bits(SECS_PER_HOUR);
    let minute = Binary64::from_bits(SECS_PER_MINUTE);
    let length = add_spec(
        add_spec(
            add_spec(
                add_spec(
                    mul_spec(from_int_spec(d.days as int), day),
                    mul_spec(from_int_spec(d.hours as int), hour),
                ),
                mul_spec(from_int_spec(d.minutes as int), minute),
            ),
            from_int_spec(d.seconds as int),
        ),
        d.fractional_seconds,
    );
    if d.sign < 0 {
        Binary64::compose(!length.sign(), length.magnitude())
    } else {
        length
    }
}

/// The hours, minutes and seconds of a count of whole seconds are those of
/// what is left of its last day, and they stay within a day, an hour and a
/// minute.
pub proof fn lemma_clock_parts(whole: nat)
    ensures
        ({
            let below_day = whole % 86400;
            &&& below_day % 3600 == whole % 3600
            &&& below_day % 60 == whole % 60
            &&& below_day / 3600 < 24
            &&& below_day % 3600 / 60 < 60
            &&& below_day % 60 < 60
        }),
{
    let q = whole / 86400;
    let below_day = whole % 86400;
    vstd::arithmetic::div_mod::lemma_fundamental_div_mod(whole as int, 86400);
    assert(whole == 3600 * (24 * q) + below_day);
    vstd::arithmetic::div_mod::lemma_mod_multiples_vanish((24 * q) as int, below_day as int, 3600);
    assert(whole == 60 * (1440 * q) + below_day);
    vstd::arithmetic::div_mod::lemma_mod_multiples_vanish((1440 * q) as int, below_day as int, 60);
}

impl DecomposedTime {
    /// The sign is one of the two that stand for a direction.
    pub open spec fn well_formed(self) -> bool {
        self.sign == 1 || self.sign == -1
    }

    /// What stands before the seconds: `<days>d ` where there are days, a
    /// minus where the sign is negative, and the hours and minutes with two
    /// digits each.
    pub open spec fn clock_prefix(self) -> Seq<char> {
        (if self.days > 0 {
            decimal(self.days as nat) + "d "@
        } else {
            Seq::empty()
        }) + (if self.sign < 0 {
            "-"@
        } else {
            Seq::empty()
        }) + two_digits(self.hours as nat) + ":"@ + two_digits(self.minutes as nat) + ":"@
    }

    /// The components without the fractional seconds, as `HH:MM:SS` behind
    /// the days and the sign.
    pub open spec fn clock_text(self) -> Seq<char> {
        self.clock_prefix() + two_digits(self.seconds as nat)
    }

    /// The components with the seconds as the caller has written them, whole
    /// and fractional part together: behind the days, the sign, the hours
    /// and the minutes, and behind a zero where the whole seconds have one
    /// digit.
    pub open spec fn clock_text_with(self, seconds: Seq<char>) -> Seq<char> {
        self.clock_prefix() + (if self.seconds < 10 {
            "0"@
        } else {
            Seq::empty()
        }) + seconds
    }

    /// The components of no time at all.
    pub fn zero() -> (r: DecomposedTime)
        ensures
            r == (DecomposedTime {
                days: 0,
                hours: 0,
                minutes: 0,
                seconds: 0,
                fractional_seconds: Binary64::from_bits(0),
                sign: 1,
            }),
    {
        DecomposedTime {
            days: 0,
            hours: 0,
            minutes: 0,
            seconds: 0,
            fractional_seconds: Binary64::from_bits(0),
            sign: 1,
        }
    }

    /// The given components, with a positive sign. None of them is checked
    /// against a range.
    pub fn from_components(
        days: u32,
        hours: u32,
        minutes: u32,
        seconds: u32,
        fractional_seconds: Binary64,
    ) -> (r: DecomposedTime)
        ensures
            r == (DecomposedTime { days, hours, minutes, seconds, fractional_seconds, sign: 1 }),
    {
        DecomposedTime { days, hours, minutes, seconds, fractional_seconds, sign: 1 }
    }

    /// The same components with the other sign.
    pub fn negate(self) -> (r: DecomposedTime)
        requires
            self.well_formed(),
        ensures
            r == (DecomposedTime { sign: (-self.sign) as i8, ..self }),
            r.well_formed(),
    {
        DecomposedTime { sign: -self.sign, ..self }
    }

    /// Whether anything is left below one second: the fractional seconds are
    /// above zero.
    pub fn has_fraction(&self) -> (b: bool)
        ensures
            b == ieee_lt_spec(Binary64::from_bits(0), self.fractional_seconds),
    {
        Binary64::from_bits(0).ieee_lt(self.fractional_seconds)
    }

    /// The seconds with what is left below one second, as one number.
    pub fn seconds_with_fraction(&self) -> (r: Binary64)
        ensures
            r == add_spec(from_int_spec(self.seconds as int), self.fractional_seconds),
    {
        Binary64::from_u32(self.seconds).add(self.fractional_seconds)
    }

    /// The days, the sign, the hours and the minutes, as text.
    fn prefix_text(&self) -> (s: String)
        ensures
            s@ == self.clock_prefix(),
    {
        let mut s = String::new();
        if self.days > 0 {
            let days = decimal_text(self.days);
            s.append(days.as_str());
            s.append("d ");
        }
        if self.sign < 0 {
            s.append("-");
        }
        let hours = two_digit_text(self.hours);
        s.append(hours.as_str());
        s.append(":");
        let minutes = two_digit_text(self.minutes);
        s.append(minutes.as_str());
        s.append(":");
        assert(s@ =~= self.clock_prefix());
        s
    }

    /// The components without the fractional seconds, as text: `<days>d `
    /// where there are days, a minus where the sign is negative, and
    /// `HH:MM:SS`.
    pub fn to_text(&self) -> (s: String)
        ensures
            s@ == self.clock_text(),
    {
        let mut s = self.prefix_text();
        let seconds = two_digit_text(self.seconds);
        s.append(seconds.as_str());
        s
    }

    /// The components as text, in the form that they call for: with the
    /// seconds and their fraction as `seconds` writes them where anything is
    /// left below one second, and else with the whole seconds alone.
    pub fn text(&self, seconds: &str) -> (s: String)
        ensures
            s@ == if ieee_lt_spec(Binary64::from_bits(0), self.fractional_seconds) {
                self.clock_text_with(seconds@)
            } else {
                self.clock_text()
            },
    {
        if self.has_fraction() {
            self.to_text_with(seconds)
        } else {
            self.to_text()
        }
    }

    /// The components as text, with the seconds and their fraction as
    /// `seconds` writes them.
    pub fn to_text_with(&self, seconds: &str) -> (s: String)
        ensures
            s@ == self.clock_text_with(seconds@),
    {
        let mut s = self.prefix_text();
        if self.seconds < 10 {
            s.append("0");
        }
        s.append(seconds);
        assert(s@ =~= self.clock_text_with(seconds@));
        s
    }
}

impl FloatDuration {
    /// Take the length of the duration apart into days, hours, minutes,
    /// seconds and the rest below one second, with the direction in the sign.
    pub fn decompose(&self) -> (r: DecomposedTime)
        ensures
            r == decompose_spec(self@),
            r.well_formed(),
            self@.is_finite_spec() ==> r.hours < 24 && r.minutes < 60 && r.seconds < 60,
    {
        let x = self.as_seconds();
        let length = x.abs();
        let sign: i8 = if x.ieee_lt(Binary64::from_bits(0)) {
            -1
        } else {
            1
        };
        let fractional_seconds = length.fract();
        if !length.is_finite() {
            return DecomposedTime {
                days: length.to_u32(),
                hours: 0,
                minutes: 0,
                seconds: 0,
                fractional_seconds,
                sign,
            };
        }
        let days: u32 = match length.whole_u64() {
            Some(whole) => {
                let days = whole / (DAY as u64);
                if days > u32::MAX as u64 {
                    u32::MAX
                } else {
                    days as u32
                }
            },
            None => u32::MAX,
        };
        let below_day: u32 = length.whole_rem(DAY);
        proof {
            lemma_clock_parts(whole_magnitude(length));
        }
        DecomposedTime {
            days,
            hours: below_day / HOUR,
            minutes: below_day % HOUR / MINUTE,
            seconds: below_day % MINUTE,
            fractional_seconds,
            sign,
        }
    }

    /// Put the components together again, with their sign.
    pub fn from_decomposed(d: &DecomposedTime) -> (r: FloatDuration)
        ensures
            r@ == recompose_spec(*d),
    {
        let day = Binary64::from_bits(SECS_PER_DAY);
        let hour = Binary64::from_bits(SECS_PER_HOUR);
        let minute = Binary64::from_bits(SECS_PER_MINUTE);
        let length = Binary64::from_u32(d.days).mul(day).add(Binary64::from_u32(d.hours).mul(hour)).add(
            Binary64::from_u32(d.minutes).mul(minute),
        ).add(Binary64::from_u32(d.seconds)).add(d.fractional_seconds);
        if d.sign < 0 {
            FloatDuration::seconds(length.neg())
        } else {
            FloatDuration::seconds(length)
        }
    }
}

} // verus!
