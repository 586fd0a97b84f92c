use float_duration::decomposed::DecomposedTime;
use float_duration::display::TimeUnit;
use float_duration::iter::{subdivide, subdivide_with_step};
use float_duration::text::{decimal_text, two_digit_text};
use float_duration::{Binary64, FloatDuration};

fn b(x: f64) -> Binary64 {
    Binary64::from_bits(x.to_bits())
}

fn f(x: Binary64) -> f64 {
    f64::from_bits(x.to_bits())
}

fn show(t: &DecomposedTime) -> String {
    let text = t.text(&format!("{}", f(t.seconds_with_fraction())));
    if t.has_fraction() {
        assert_eq!(text, t.to_text_with(&format!("{}", f(t.seconds_with_fraction()))));
    } else {
        assert_eq!(text, t.to_text());
    }
    text
}

#[test]
fn minus_three_minutes_decomposes() {
    let t = FloatDuration::minutes(b(-3.0)).decompose();
    assert_eq!(t.sign, -1);
    assert_eq!(t.days, 0);
    assert_eq!(t.hours, 0);
    assert_eq!(t.minutes, 3);
    assert_eq!(t.seconds, 0);
    assert_eq!(f(t.fractional_seconds), 0.0);
}

#[test]
fn decompose_takes_days_hours_minutes_and_seconds() {
    let d = FloatDuration::days(b(2.0))
        .add(FloatDuration::hours(b(3.0)))
        .add(FloatDuration::minutes(b(4.0)))
        .add(FloatDuration::seconds(b(5.25)));
    let t = d.decompose();
    assert_eq!(
        (t.days, t.hours, t.minutes, t.seconds, t.sign),
        (2, 3, 4, 5, 1)
    );
    assert_eq!(f(t.fractional_seconds), 0.25);

    let zero = FloatDuration::zero().decompose();
    assert_eq!(zero, DecomposedTime::zero());
    // negative zero is no negative duration
    assert_eq!(FloatDuration::seconds(b(-0.0)).decompose().sign, 1);

    let day = FloatDuration::days(b(1.0)).decompose();
    assert_eq!(
        (day.days, day.hours, day.minutes, day.seconds),
        (1, 0, 0, 0)
    );
    let almost = FloatDuration::seconds(b(86399.5)).decompose();
    assert_eq!(
        (almost.days, almost.hours, almost.minutes, almost.seconds),
        (0, 23, 59, 59)
    );
    assert_eq!(f(almost.fractional_seconds), 0.5);
}

#[test]
fn recomposing_gives_the_duration_back() {
    let mut values = vec![
        0.0,
        1.0,
        59.0,
        60.0,
        3599.0,
        3600.0,
        86399.0,
        86400.0,
        90061.0,
        123456789.0,
        0.5,
        12.75,
        86399.5,
        1.0e9,
        12.7,
        0.1,
        98765.4321,
        59.99999999999999,
        3599.9999999999995,
        86399.99999999999,
        5.0e-324,
        1.0e-300,
        371085174374399.94,
    ];
    let mut state: u64 = 0x853c_49e6_748f_ea9b;
    for _ in 0..2000 {
        state ^= state << 13;
        state ^= state >> 7;
        state ^= state << 17;
        // counts of seconds of every size that has fewer than two to the 32nd days
        let exponent = 960 + (state >> 57);
        let x = f64::from_bits((state & 0x000f_ffff_ffff_ffff) | (exponent << 52));
        if x < 371085174374400.0 {
            values.push(x);
        }
    }
    for &x in &values {
        let d = FloatDuration::seconds(b(x));
        let t = d.decompose();
        assert!(t.hours < 24 && t.minutes < 60 && t.seconds < 60, "{:e}", x);
        let fraction = f(t.fractional_seconds);
        assert!(0.0 <= fraction && fraction < 1.0, "{:e}", x);
        assert_eq!(fraction, x.fract());
        let back = FloatDuration::from_decomposed(&t);
        assert_eq!(back.as_seconds().to_bits(), x.to_bits(), "{:e}", x);
        let negative = FloatDuration::seconds(b(-x));
        let back = FloatDuration::from_decomposed(&negative.decompose());
        assert_eq!(f(back.as_seconds()), -x, "-{:e}", x);
    }
}

#[test]
fn decompose_of_what_is_too_long_for_the_days() {
    // two to the 32nd days and more are given as the largest count of days
    let t = FloatDuration::seconds(b(371085174374400.0)).decompose();
    assert_eq!((t.days, t.hours, t.minutes, t.seconds), (u32::MAX, 0, 0, 0));
    let t = FloatDuration::seconds(b(371085174374399.0)).decompose();
    assert_eq!((t.days, t.hours, t.minutes, t.seconds), (u32::MAX, 23, 59, 59));
    // the rest of the day is exact however long the duration
    let t = FloatDuration::seconds(b(18446744073709551616.0)).decompose();
    assert_eq!((t.days, t.hours, t.minutes, t.seconds), (u32::MAX, 7, 0, 16));
    let t = FloatDuration::seconds(b(-1.0e300)).decompose();
    assert_eq!((t.days, t.hours, t.minutes, t.seconds, t.sign), (u32::MAX, 17, 36, 0, -1));
    assert_eq!(f(t.fractional_seconds), 0.0);

    let t = FloatDuration::seconds(b(f64::NEG_INFINITY)).decompose();
    assert_eq!((t.days, t.hours, t.minutes, t.seconds, t.sign), (u32::MAX, 0, 0, 0, -1));
    assert!(t.fractional_seconds.is_nan());
    let t = FloatDuration::seconds(b(f64::NAN)).decompose();
    assert_eq!((t.days, t.hours, t.minutes, t.seconds, t.sign), (0, 0, 0, 0, 1));
    assert!(t.fractional_seconds.is_nan());
}

#[test]
fn from_decomposed_applies_the_sign() {
    let t = DecomposedTime::from_components(1, 2, 3, 4, b(0.5));
    assert_eq!(t.sign, 1);
    let want = 86400.0 + 2.0 * 3600.0 + 3.0 * 60.0 + 4.0 + 0.5;
    assert_eq!(f(FloatDuration::from_decomposed(&t).as_seconds()), want);
    let n = t.negate();
    assert_eq!(n.sign, -1);
    assert_eq!(
        (n.days, n.hours, n.minutes, n.seconds),
        (t.days, t.hours, t.minutes, t.seconds)
    );
    assert_eq!(f(FloatDuration::from_decomposed(&n).as_seconds()), -want);
    assert_eq!(n.negate(), t);
}

#[test]
fn decomposed_time_is_written_as_a_clock() {
    assert_eq!(show(&DecomposedTime::zero()), "00:00:00");
    assert_eq!(
        show(&DecomposedTime::from_components(0, 1, 2, 3, b(0.0))),
        "01:02:03"
    );
    assert_eq!(
        show(&DecomposedTime::from_components(12, 11, 10, 59, b(0.0))),
        "12d 11:10:59"
    );
    assert_eq!(
        show(&DecomposedTime::from_components(3, 1, 2, 3, b(0.0)).negate()),
        "3d -01:02:03"
    );
    assert_eq!(
        show(&DecomposedTime::from_components(0, 1, 2, 3, b(0.5))),
        "01:02:03.5"
    );
    assert_eq!(
        show(&DecomposedTime::from_components(0, 1, 2, 13, b(0.25)).negate()),
        "-01:02:13.25"
    );
    assert_eq!(
        show(&DecomposedTime::from_components(0, 100, 2, 3, b(0.0))),
        "100:02:03"
    );
    assert_eq!(
        show(&FloatDuration::seconds(b(-93784.5)).decompose()),
        "1d -02:03:04.5"
    );
}

#[test]
fn whole_numbers_are_written_in_decimal() {
    for &n in &[0u32, 1, 9, 10, 11, 99, 100, 101, 4096, 1_000_000, u32::MAX] {
        assert_eq!(decimal_text(n), format!("{}", n));
        assert_eq!(two_digit_text(n), format!("{:02}", n));
    }
}

#[test]
fn the_display_unit_is_the_coarsest_one_exceeded() {
    let unit = |x: f64| FloatDuration::seconds(b(x)).display_unit();
    assert_eq!(unit(31536000.5), TimeUnit::Years);
    assert_eq!(unit(31536000.0), TimeUnit::Days);
    assert_eq!(unit(86400.5), TimeUnit::Days);
    // exactly one day is given in hours
    assert_eq!(unit(86400.0), TimeUnit::Hours);
    assert_eq!(unit(3600.0), TimeUnit::Minutes);
    assert_eq!(unit(60.0), TimeUnit::Seconds);
    assert_eq!(unit(1.0), TimeUnit::Milliseconds);
    assert_eq!(unit(0.001), TimeUnit::Microseconds);
    assert_eq!(unit(0.000001), TimeUnit::Nanoseconds);
    assert_eq!(unit(0.0), TimeUnit::Nanoseconds);
    assert_eq!(unit(-100.0), TimeUnit::Nanoseconds);
    assert_eq!(unit(f64::NAN), TimeUnit::Nanoseconds);
    assert_eq!(unit(f64::INFINITY), TimeUnit::Years);
    let day = FloatDuration::days(b(1.0));
    assert_eq!(f(day.display_value()), 24.0);
    assert_eq!(day.to_text_with("24"), "24 hours");
    assert_eq!(f(day.in_unit(TimeUnit::Minutes)), 1440.0);
    assert_eq!(TimeUnit::Microseconds.plural_name(), "microseconds");
}

#[test]
fn a_lattice_has_as_many_points_as_steps() {
    for &steps in &[2usize, 3, 7, 100] {
        let s = subdivide(
            FloatDuration::seconds(b(1.5)),
            FloatDuration::minutes(b(10.0)),
            steps,
        );
        assert_eq!(s.len(), steps);
        assert_eq!(s.size_hint(), (steps, Some(steps)));
        let forward = s.collect();
        let backward = s.collect_reversed();
        assert_eq!(forward.len(), steps);
        assert_eq!(forward[0], FloatDuration::seconds(b(1.5)));
        let mut reversed = backward.clone();
        reversed.reverse();
        assert_eq!(forward, reversed);
        let step = f(s.step_size().as_seconds());
        assert_eq!(step, (600.0 - 1.5) / ((steps - 1) as f64));
        for (i, point) in forward.iter().enumerate() {
            assert_eq!(f(point.as_seconds()), 1.5 + step * (i as f64));
        }
    }
}

#[test]
fn a_lattice_is_walked_once_from_both_ends() {
    let mut s = subdivide(FloatDuration::zero(), FloatDuration::seconds(b(4.0)), 5);
    assert_eq!(s.next().unwrap(), FloatDuration::seconds(b(0.0)));
    assert_eq!(s.next_back().unwrap(), FloatDuration::seconds(b(4.0)));
    assert_eq!(s.len(), 3);
    assert_eq!(s.next_back().unwrap(), FloatDuration::seconds(b(3.0)));
    assert_eq!(s.next().unwrap(), FloatDuration::seconds(b(1.0)));
    assert_eq!(s.next().unwrap(), FloatDuration::seconds(b(2.0)));
    assert_eq!(s.len(), 0);
    assert!(s.next().is_none());
    assert!(s.next_back().is_none());
    assert_eq!(s.len(), 0);
}

#[test]
fn a_lattice_with_steps_hands_out_the_step_size() {
    let mut s = subdivide_with_step(FloatDuration::zero(), FloatDuration::hours(b(1.0)), 4);
    assert_eq!(s.len(), 4);
    let mut seen = 0;
    while let Some((t, dt)) = s.next() {
        assert_eq!(dt, FloatDuration::minutes(b(20.0)));
        assert_eq!(t, FloatDuration::minutes(b(20.0 * (seen as f64))));
        seen += 1;
    }
    assert_eq!(seen, 4);
    assert_eq!(s.len(), 0);
}

#[test]
fn in_place_arithmetic_equals_reassignment() {
    let a = FloatDuration::seconds(b(12.7));
    let c = FloatDuration::minutes(b(0.1));
    let mut x = a;
    x.add_assign(c);
    assert_eq!(x.as_seconds().to_bits(), a.add(c).as_seconds().to_bits());
    let mut x = a;
    x.sub_assign(c);
    assert_eq!(x.as_seconds().to_bits(), a.sub(c).as_seconds().to_bits());
    let mut x = a;
    x.mul_assign(b(3.3));
    assert_eq!(x.as_seconds().to_bits(), a.mul(b(3.3)).as_seconds().to_bits());
    let mut x = a;
    x.div_assign(b(3.3));
    assert_eq!(x.as_seconds().to_bits(), a.div(b(3.3)).as_seconds().to_bits());
    assert_eq!(
        b(3.3).mul_duration(a).as_seconds().to_bits(),
        a.mul(b(3.3)).as_seconds().to_bits()
    );
}

#[test]
fn signs_and_extremes() {
    assert!(FloatDuration::seconds(b(-0.0)).is_zero());
    assert!(FloatDuration::seconds(b(-0.0)).is_negative());
    assert!(!FloatDuration::seconds(b(-0.0)).is_positive());
    assert!(FloatDuration::zero().is_positive());
    assert_eq!(f(FloatDuration::max_value().as_seconds()), f64::MAX);
    assert_eq!(f(FloatDuration::min_value().as_seconds()), f64::MIN);
    assert_eq!(
        f(FloatDuration::seconds(b(-2.5)).abs().as_seconds()),
        2.5
    );
    assert_eq!(f(FloatDuration::years(b(1.0)).as_days()), 365.0);
    assert_eq!(f(FloatDuration::hours(b(0.7)).as_minutes()), (0.7f64 * 3600.0) / 60.0);
    let nan = FloatDuration::zero().div(b(0.0));
    assert!(nan.as_seconds().is_nan());
    assert!(nan.add(FloatDuration::seconds(b(1.0))).as_seconds().is_nan());
}

#[test]
fn whole_hours_in_minutes_are_sixty_times_the_hours() {
    for &x in &[0.0, 1.0, 3.0, -3.0, 24.0, 1000.0, 123456.0, 2199023255552.0] {
        let minutes = FloatDuration::hours(b(x)).as_minutes();
        assert_eq!(minutes.to_bits(), (x * 60.0).to_bits(), "{:e}", x);
    }
    // and so are hours with a fraction, where their seconds are exact
    for &x in &[0.5, 0.25, 1.5, 2.125, 1000.0625] {
        let minutes = FloatDuration::hours(b(x)).as_minutes();
        assert_eq!(minutes.to_bits(), (x * 60.0).to_bits(), "{:e}", x);
    }
}

#[test]
fn a_lattice_of_whole_seconds_is_exact() {
    for &(first, last, steps) in &[
        (0u64, 60u64, 3usize),
        (0, 3600, 7),
        (10, 1010, 101),
        (5, 5, 2),
        (1, 9007199254740991, 3),
    ] {
        let s = subdivide(
            FloatDuration::seconds(Binary64::from_u64(first)),
            FloatDuration::seconds(Binary64::from_u64(last)),
            steps,
        );
        let width = (last - first) / (steps as u64 - 1);
        let points = s.collect();
        assert_eq!(points.len(), steps);
        for (i, point) in points.iter().enumerate() {
            assert_eq!(f(point.as_seconds()), (first + width * i as u64) as f64);
        }
        assert_eq!(f(points[steps - 1].as_seconds()), last as f64);
    }
}

#[test]
fn an_exact_lattice_ends_at_its_end() {
    // descending, negative and fractional ends, as long as the steps are exact
    for &(first, last, steps) in &[
        (60.0, 0.0, 3usize),
        (0.0, -60.0, 4),
        (-7.5, 7.5, 7),
        (0.25, 1.0, 4),
        (1.0, 0.25, 4),
        (-1024.0, -0.5, 2048),
        (3.0, 3.0, 5),
        (9007199254740991.0, -1.0, 3),
    ] {
        let s = subdivide(
            FloatDuration::seconds(b(first)),
            FloatDuration::seconds(b(last)),
            steps,
        );
        let width = (last - first) / ((steps - 1) as f64);
        assert_eq!(f(s.step_size().as_seconds()), width);
        let points = s.collect();
        for (i, point) in points.iter().enumerate() {
            assert_eq!(f(point.as_seconds()), first + width * (i as f64));
        }
        assert_eq!(points[0], FloatDuration::seconds(b(first)));
        assert_eq!(points[steps - 1], FloatDuration::seconds(b(last)));
        let mut back = s;
        assert_eq!(back.next_back(), Some(FloatDuration::seconds(b(last))));
    }
}

#[test]
fn the_first_point_of_a_lattice_is_its_start() {
    for &(first, last, steps) in &[
        (0.1, 0.7, 5usize),
        (-12.7, 1.0e300, 2),
        (1.0e-320, 3.0, 1000),
        (f64::MAX, 0.0, 3),
        (5.0, 5.0, 2),
    ] {
        let mut s = subdivide(
            FloatDuration::seconds(b(first)),
            FloatDuration::seconds(b(last)),
            steps,
        );
        assert!(s.step_size().as_seconds().is_finite());
        assert_eq!(s.next().unwrap().as_seconds().to_bits(), first.to_bits());
    }
}

#[test]
fn the_days_are_the_truncated_quotient_by_a_day() {
    for &n in &[0u64, 1, 86399, 86400, 86401, 123456789, 371085174374399] {
        let d = FloatDuration::seconds(Binary64::from_u64(n));
        let days = d.decompose().days;
        assert_eq!(days as u64, n / 86400);
        assert_eq!(d.as_days().trunc().to_bits(), ((n / 86400) as f64).to_bits());
    }
}
