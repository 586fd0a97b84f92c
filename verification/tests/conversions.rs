use float_duration::error::OutOfRangeError;
use float_duration::timepoint::{elapsed_on_system_clock, FromDuration, IntoDuration, TimePoint};
use float_duration::{Binary64, FloatDuration};
use std::time::{Duration, Instant, SystemTime};

fn b(x: f64) -> Binary64 {
    Binary64::from_bits(x.to_bits())
}

fn same(got: Binary64, want: f64) -> bool {
    if want.is_nan() {
        got.is_nan()
    } else {
        got.to_bits() == want.to_bits()
    }
}

fn samples() -> Vec<f64> {
    let mut v = vec![
        0.0,
        -0.0,
        0.25,
        0.5,
        0.9999999999999999,
        1.0,
        1.5,
        2.5,
        -2.5,
        59.999999999,
        60.0,
        12.7,
        1.0e9,
        4294967295.0,
        4294967295.5,
        4294967296.0,
        4503599627370495.5,
        4503599627370496.0,
        9007199254740991.0,
        9007199254740992.0,
        18446744073709549568.0,
        18446744073709551616.0,
        1.0e20,
        1.0e300,
        -1.0e300,
        5.0e-324,
        1.0e-9,
        f64::MAX,
        f64::MIN,
        f64::INFINITY,
        f64::NEG_INFINITY,
        f64::NAN,
    ];
    let mut state: u64 = 0x2545_f491_4f6c_dd1d;
    for _ in 0..200 {
        state ^= state << 13;
        state ^= state >> 7;
        state ^= state << 17;
        v.push(f64::from_bits(state));
        // magnitudes between one and two to the 70th, where the casts are at work
        let exponent = 1023 + (state >> 58) + ((state >> 52) & 7);
        v.push(f64::from_bits((state & 0x800f_ffff_ffff_ffff) | (exponent << 52)));
    }
    v
}

#[test]
fn whole_and_fractional_parts_match_the_hardware() {
    for &x in &samples() {
        assert!(same(b(x).trunc(), x.trunc()), "trunc {:e}", x);
        assert!(same(b(x).fract(), x.fract()), "fract {:e}", x);
    }
}

#[test]
fn casts_to_integers_saturate_as_the_hardware_does() {
    for &x in &samples() {
        assert_eq!(b(x).to_u64(), x as u64, "{:e}", x);
        assert_eq!(b(x).to_u32(), x as u32, "{:e}", x);
    }
    assert_eq!(b(f64::NAN).to_u64(), 0);
    assert_eq!(b(-1.0).to_u64(), 0);
    assert_eq!(b(1.0e30).to_u64(), u64::MAX);
    assert_eq!(b(1.0e30).to_u32(), u32::MAX);
    assert_eq!(b(7.9).to_u32(), 7);
}

#[test]
fn casts_from_integers_round_as_the_hardware_does() {
    let mut state: u64 = 0x9e37_79b9_7f4a_7c15;
    let mut values = vec![
        0u64,
        1,
        2,
        1 << 52,
        (1 << 53) - 1,
        1 << 53,
        (1 << 53) + 1,
        (1 << 53) + 2,
        (1 << 53) + 3,
        (1 << 54) + 2,
        (1 << 54) + 6,
        u64::MAX,
        u64::MAX - 1023,
        u64::MAX - 1024,
        1 << 63,
    ];
    for _ in 0..300 {
        state ^= state << 13;
        state ^= state >> 7;
        state ^= state << 17;
        values.push(state);
        values.push(state >> (state & 63));
    }
    for &n in &values {
        assert_eq!(Binary64::from_u64(n).to_bits(), (n as f64).to_bits(), "{}", n);
        assert_eq!(
            Binary64::from_i64(n as i64).to_bits(),
            (n as i64 as f64).to_bits(),
            "{}",
            n as i64
        );
        assert_eq!(
            Binary64::from_u32(n as u32).to_bits(),
            (n as u32 as f64).to_bits()
        );
        assert_eq!(
            Binary64::from_usize(n as usize).to_bits(),
            (n as usize as f64).to_bits()
        );
    }
    assert_eq!(Binary64::from_i64(i64::MIN).to_bits(), (i64::MIN as f64).to_bits());
}

#[test]
fn comparisons_follow_the_numeric_order() {
    let v = samples();
    for &x in &v {
        for &y in &v {
            assert_eq!(b(x).ieee_eq(b(y)), x == y, "{:e} == {:e}", x, y);
            assert_eq!(b(x).ieee_lt(b(y)), x < y, "{:e} < {:e}", x, y);
            assert_eq!(b(x).ieee_gt(b(y)), x > y, "{:e} > {:e}", x, y);
            assert_eq!(b(x) == b(y), x == y);
            assert_eq!(b(x) < b(y), x < y);
            assert_eq!(b(x) <= b(y), x <= y);
            assert_eq!(b(x).partial_cmp(&b(y)), x.partial_cmp(&y));
            assert_eq!(
                FloatDuration::seconds(b(x)) < FloatDuration::seconds(b(y)),
                x < y
            );
            assert_eq!(
                FloatDuration::seconds(b(x)) == FloatDuration::seconds(b(y)),
                x == y
            );
        }
    }
    assert!(b(0.0) == b(-0.0));
    assert!(b(f64::NAN) != b(f64::NAN));
}

// The parts of a count of seconds that has a conversion, computed in hardware.
fn reference_parts(x: f64) -> (u64, u32) {
    (x.trunc() as u64, (x.fract() * 1.0e9) as u32)
}

#[test]
fn to_std_gives_whole_seconds_and_nanoseconds() {
    for &x in &[
        0.0,
        0.5,
        1.0,
        1.25,
        12.7,
        0.000000001,
        0.0000000004,
        0.999999999,
        0.9999999999999999,
        300.0,
        86399.999,
        1.0e15,
        9007199254740993.0,
        18446744073709549568.0,
    ] {
        let d = FloatDuration::seconds(b(x)).to_std().unwrap();
        let (secs, nanos) = reference_parts(x);
        assert_eq!(d, Duration::new(secs, nanos), "{:e}", x);
        assert_eq!(
            FloatDuration::seconds(b(x)).to_std_parts(),
            Some((secs, nanos))
        );
    }
    assert_eq!(
        FloatDuration::seconds(b(1.5)).to_std().unwrap(),
        Duration::new(1, 500_000_000)
    );
}

#[test]
fn to_std_refuses_what_a_duration_cannot_hold() {
    assert!(FloatDuration::seconds(b(-1.0)).to_std().is_err());
    assert!(FloatDuration::seconds(b(-0.0)).to_std().is_err());
    assert!(FloatDuration::seconds(b(-1.0e-300)).to_std().is_err());
    assert!(FloatDuration::seconds(b(f64::NEG_INFINITY)).to_std().is_err());
    assert!(FloatDuration::seconds(b(f64::INFINITY)).to_std().is_err());
    assert!(FloatDuration::seconds(b(18446744073709551616.0)).to_std().is_err());
    assert!(FloatDuration::seconds(b(1.0e30)).to_std().is_err());
    assert!(FloatDuration::min_value().to_std().is_err());
    assert_eq!(FloatDuration::seconds(b(-5.0)).to_std_parts(), None);
    // the largest count of seconds below two to the 64th still converts
    assert_eq!(
        FloatDuration::seconds(b(18446744073709549568.0))
            .to_std()
            .unwrap(),
        Duration::new(18446744073709549568, 0)
    );
    // a not-a-number with a clear sign converts to the empty duration
    assert_eq!(
        FloatDuration::seconds(Binary64::from_bits(0x7ff8_0000_0000_0000))
            .to_std()
            .unwrap(),
        Duration::new(0, 0)
    );
}

#[test]
fn round_trip_through_std_keeps_whole_seconds() {
    for &x in &[0.0, 1.0, 2.0, 300.0, 7200.0, 4294967296.0, 9007199254740992.0, 1.0e18] {
        let d = FloatDuration::seconds(b(x));
        let back = FloatDuration::from_std(d.to_std().unwrap());
        assert_eq!(back.as_seconds().to_bits(), x.to_bits());
    }
    // with a fraction, what lies below a nanosecond is cut off
    for &x in &[0.5, 1.25, 12.7, 0.001, 86399.999] {
        let d = FloatDuration::seconds(b(x));
        let back = FloatDuration::from_std(d.to_std().unwrap());
        let diff = f64::from_bits(back.as_seconds().to_bits()) - x;
        assert!(diff.abs() <= 2.0e-9, "{:e}", x);
    }
}

#[test]
fn from_std_adds_seconds_and_nanoseconds() {
    for &(secs, nanos) in &[
        (0u64, 0u32),
        (0, 1),
        (1, 1),
        (3, 999_999_999),
        (u64::MAX, 999_999_999),
        (1 << 53, 1),
        (12345678901234, 567_890_123),
    ] {
        let want = (secs as f64) + (nanos as f64) / 1.0e9;
        let got = FloatDuration::from_std(Duration::new(secs, nanos));
        assert_eq!(got.as_seconds().to_bits(), want.to_bits());
        let converted: FloatDuration = Duration::new(secs, nanos).into();
        assert_eq!(converted.as_seconds().to_bits(), want.to_bits());
    }
}

#[test]
fn to_chrono_keeps_the_sign_and_checks_the_range() {
    assert_eq!(
        FloatDuration::seconds(b(-1.5)).to_chrono().unwrap(),
        chrono::Duration::milliseconds(-1500)
    );
    assert_eq!(
        FloatDuration::seconds(b(1.5)).to_chrono().unwrap(),
        chrono::Duration::milliseconds(1500)
    );
    assert_eq!(
        FloatDuration::seconds(b(-0.0)).to_chrono().unwrap(),
        chrono::Duration::zero()
    );
    // the largest calendar duration is i64::MAX milliseconds
    assert!(FloatDuration::seconds(b(9223372036854774.0)).to_chrono().is_ok());
    assert!(FloatDuration::seconds(b(9223372036854776.0)).to_chrono().is_err());
    assert!(FloatDuration::seconds(b(-9223372036854776.0)).to_chrono().is_err());
    assert!(FloatDuration::seconds(b(f64::INFINITY)).to_chrono().is_err());
    assert!(FloatDuration::min_value().to_chrono().is_err());
    let e: OutOfRangeError = FloatDuration::max_value().to_chrono().unwrap_err();
    assert_eq!(e, OutOfRangeError::new());
}

#[test]
fn from_chrono_falls_back_to_milliseconds() {
    // below i64::MAX nanoseconds the nanoseconds are kept
    let small = chrono::Duration::nanoseconds(1_000_000_001);
    assert_eq!(
        FloatDuration::from_chrono(small).as_seconds().to_bits(),
        (1_000_000_001f64 / 1.0e9).to_bits()
    );
    // above, only the whole milliseconds are
    let big = chrono::Duration::milliseconds(i64::MAX / 2) + chrono::Duration::nanoseconds(999_999);
    assert!(big.num_nanoseconds().is_none());
    assert_eq!(
        FloatDuration::from_chrono(big).as_seconds().to_bits(),
        (((i64::MAX / 2) as f64) / 1.0e3).to_bits()
    );
    let negative = -big;
    assert_eq!(
        FloatDuration::from_chrono(negative).as_seconds().to_bits(),
        ((-(i64::MAX / 2) as f64) / 1.0e3).to_bits()
    );
    let converted: FloatDuration = small.into();
    assert_eq!(converted, FloatDuration::from_chrono(small));
}

#[test]
fn conversion_traits_go_both_ways() {
    let d: Result<FloatDuration, ()> = FloatDuration::from_duration(Duration::new(2, 0));
    assert_eq!(d.unwrap(), FloatDuration::seconds(b(2.0)));
    let s: Result<Duration, OutOfRangeError> = FloatDuration::seconds(b(2.0)).into_duration();
    assert_eq!(s.unwrap(), Duration::new(2, 0));
    let s: Result<Duration, OutOfRangeError> = FloatDuration::seconds(b(-2.0)).into_duration();
    assert!(s.is_err());
    let c: Result<chrono::Duration, OutOfRangeError> =
        FloatDuration::seconds(b(-2.0)).into_duration();
    assert_eq!(c.unwrap(), chrono::Duration::seconds(-2));
    let d: Result<FloatDuration, ()> = chrono::Duration::seconds(-2).into_duration();
    assert_eq!(d.unwrap(), FloatDuration::seconds(b(-2.0)));
}

#[test]
fn time_points_give_the_time_between_them() {
    let first = Instant::now();
    let second = first + Duration::new(3, 500_000_000);
    assert_eq!(
        second.float_duration_since(first).unwrap(),
        FloatDuration::seconds(b(3.5))
    );
    assert_eq!(
        first.float_duration_since(second).unwrap(),
        FloatDuration::zero()
    );

    let early = SystemTime::UNIX_EPOCH;
    let late = early + Duration::new(10, 0);
    assert_eq!(
        late.float_duration_since(early).unwrap(),
        FloatDuration::seconds(b(10.0))
    );
    assert!(early.float_duration_since(late).is_err());
    assert_eq!(
        elapsed_on_system_clock(late.duration_since(early)).unwrap(),
        FloatDuration::seconds(b(10.0))
    );
    assert!(elapsed_on_system_clock(early.duration_since(late)).is_err());

    let date1 = chrono::NaiveDate::from_ymd_opt(2017, 5, 25).unwrap();
    let date2 = chrono::NaiveDate::from_ymd_opt(2017, 5, 26).unwrap();
    assert_eq!(
        date2.float_duration_since(date1).unwrap(),
        FloatDuration::days(b(1.0))
    );
    let moment1 = date1.and_hms_opt(10, 0, 0).unwrap();
    let moment2 = date2.and_hms_opt(12, 0, 0).unwrap();
    assert_eq!(
        moment2.float_duration_since(moment1).unwrap(),
        FloatDuration::days(b(1.0)).add(FloatDuration::hours(b(2.0)))
    );
    assert!(moment1.float_duration_since(moment2).unwrap() < FloatDuration::zero());
    assert_eq!(
        moment2.time().float_duration_since(moment1.time()).unwrap(),
        FloatDuration::hours(b(2.0))
    );
}

#[test]
fn the_error_says_what_went_wrong() {
    assert_eq!(
        OutOfRangeError::new().description(),
        "The converted duration value is out of range."
    );
    assert_eq!(OutOfRangeError::default(), OutOfRangeError::new());
}

#[test]
fn round_trip_through_std_keeps_exact_nanoseconds() {
    // fractional parts that are a whole number of nanoseconds, computed exactly
    for &x in &[0.5, 1.5, 1.25, 2.75, 0.125, 300.5, 86399.75, 4294967296.5, 0.001953125] {
        let d = FloatDuration::seconds(b(x));
        let std = d.to_std().unwrap();
        assert_eq!(std, Duration::new(x.trunc() as u64, (x.fract() * 1.0e9) as u32));
        let back = FloatDuration::from_std(std);
        assert_eq!(back.as_seconds().to_bits(), x.to_bits(), "{:e}", x);
        assert_eq!(back, d);
    }
    // below one nanosecond nothing is left to come back
    let tiny = FloatDuration::seconds(b(1.0e-10));
    assert_eq!(tiny.to_std().unwrap(), Duration::new(0, 0));
    assert_eq!(FloatDuration::from_std(tiny.to_std().unwrap()), FloatDuration::zero());
}

#[test]
fn from_chrono_takes_durations_beyond_the_range_of_milliseconds() {
    // the arithmetic of chrono can leave the range of i64::MAX milliseconds
    let long = chrono::Duration::MAX * 999;
    assert_eq!(long.num_seconds(), 9214148664817921031);
    assert_eq!(long.subsec_nanos(), 193000000);
    assert!(long.num_nanoseconds().is_none());
    let millis: i128 = 9214148664817921031i128 * 1000 + 193;
    assert_eq!(
        FloatDuration::from_chrono(long).as_seconds().to_bits(),
        ((millis as f64) / 1.0e3).to_bits()
    );
    let converted: FloatDuration = long.into();
    assert_eq!(converted, FloatDuration::from_chrono(long));

    let back = -long;
    assert_eq!(
        FloatDuration::from_chrono(back).as_seconds().to_bits(),
        (((-millis) as f64) / 1.0e3).to_bits()
    );
    // the nanoseconds below a millisecond are left out, toward zero
    let odd = (chrono::Duration::MAX - chrono::Duration::nanoseconds(1)) * 7;
    assert_eq!(odd.subsec_nanos(), 648_999_993);
    assert!(odd.num_nanoseconds().is_none());
    let millis: i128 = (odd.num_seconds() as i128) * 1000 + (odd.subsec_nanos() as i128) / 1_000_000;
    assert_eq!(
        FloatDuration::from_chrono(odd).as_seconds().to_bits(),
        ((millis as f64) / 1.0e3).to_bits()
    );
    assert_eq!(
        FloatDuration::from_chrono(-odd).as_seconds().to_bits(),
        (((-millis) as f64) / 1.0e3).to_bits()
    );
}
