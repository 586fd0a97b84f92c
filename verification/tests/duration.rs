use chrono::{Local, NaiveDate};
use float_duration::iter::subdivide;
use float_duration::{Binary64, FloatDuration, TimePoint};
use std::time;

fn b(x: f64) -> Binary64 {
    Binary64::from_bits(x.to_bits())
}

fn f(x: Binary64) -> f64 {
    f64::from_bits(x.to_bits())
}

fn show(d: FloatDuration) -> String {
    d.to_text_with(&format!("{}", f(d.display_value())))
}

#[test]
fn test_construct() {
    let duration1 = FloatDuration::hours(b(3.0));
    assert_eq!(duration1.as_hours(), b(3.0));
    assert_eq!(duration1.as_minutes(), b(180.0));
    assert_eq!(duration1.as_seconds(), b(180.0 * 60.0));
    assert_eq!(duration1.as_days(), b(3.0 / 24.0));
    assert_eq!(duration1.as_milliseconds(), b(180.0 * 60.0 * 1000.0));
    assert!(duration1.is_positive());

    let duration2 = FloatDuration::milliseconds(b(55.0));
    assert_eq!(duration2.as_seconds(), b(0.055));
    assert_eq!(duration2.as_milliseconds(), b(55.0));
    assert_eq!(duration2.as_microseconds(), b(55000.0));
    assert_eq!(duration2.as_nanoseconds(), b(55000000.0));
    assert!(!duration2.is_zero());

    let duration3 = FloatDuration::zero();
    assert!(duration3.is_zero());
    assert_eq!(duration3.as_minutes(), b(0.0));
    assert_eq!(duration3.as_nanoseconds(), b(0.0));

    assert_eq!(FloatDuration::days(b(1.5)), FloatDuration::hours(b(36.0)));
    assert_eq!(FloatDuration::minutes(b(30.0)), FloatDuration::hours(b(0.5)));
    assert_eq!(FloatDuration::seconds(b(180.0)), FloatDuration::minutes(b(3.0)));
    assert_eq!(
        FloatDuration::seconds(b(3.5)),
        FloatDuration::milliseconds(b(3500.0))
    );
    assert_eq!(
        FloatDuration::microseconds(b(300.0)),
        FloatDuration::milliseconds(b(0.30))
    );
    assert_eq!(
        FloatDuration::nanoseconds(b(1000.0)),
        FloatDuration::microseconds(b(1.0))
    );

    let duration4 = FloatDuration::minutes(b(-3.0));
    assert_eq!(duration4.as_minutes(), b(-3.0));
    assert_eq!(duration4.as_hours(), b(-0.05));
    assert!(duration4.is_negative());

    assert_eq!(
        FloatDuration::years(b(2.0)),
        FloatDuration::days(b(365.0 * 2.0))
    );
}

#[test]
fn test_arithmetic() {
    assert_eq!(
        FloatDuration::minutes(b(5.0)).add(FloatDuration::seconds(b(30.0))),
        FloatDuration::seconds(b(330.0))
    );

    assert_eq!(
        FloatDuration::hours(b(3.0)).mul(b(2.5)),
        FloatDuration::hours(b(7.5))
    );

    assert_eq!(
        FloatDuration::days(b(3.0))
            .div(b(3.0))
            .sub(FloatDuration::hours(b(2.0))),
        FloatDuration::hours(b(22.0))
    );

    assert_eq!(
        FloatDuration::zero()
            .add(FloatDuration::milliseconds(b(500.0)))
            .add(FloatDuration::microseconds(b(500.0))),
        FloatDuration::microseconds(b(500500.0))
    );

    assert_eq!(
        b(2.0).mul_duration(FloatDuration::milliseconds(b(150.0))),
        FloatDuration::milliseconds(b(300.0))
    );

    assert_eq!(
        FloatDuration::minutes(b(10.0)).div_duration(FloatDuration::seconds(b(60.0))),
        b(10.0)
    );
    assert_eq!(
        FloatDuration::minutes(b(5.0)),
        FloatDuration::minutes(b(5.0)).neg().mul(b(-1.0))
    );

    assert_eq!(
        FloatDuration::seconds(b(10.0)).sub(FloatDuration::minutes(b(1.0))),
        FloatDuration::seconds(b(-50.0))
    );

    let inf = FloatDuration::seconds(b(10.0)).div(b(0.0));

    assert!(inf.as_seconds().is_infinite());
    assert!(inf.as_years().is_infinite());
    assert!(inf.as_microseconds().is_infinite());
    assert!(
        FloatDuration::hours(b(10.0)).div_duration(FloatDuration::minutes(b(0.0)))
            == b(f64::INFINITY)
    );
}

#[test]
fn test_std_conversion() {
    let duration1 = FloatDuration::minutes(b(5.0));
    let std_duration1 = duration1.to_std().unwrap();
    assert!(duration1.is_positive());
    assert_eq!(std_duration1, time::Duration::new(300, 0));
    assert_eq!(FloatDuration::from_std(std_duration1), duration1);

    let duration2 = FloatDuration::hours(b(-2.0));
    assert!(duration2.is_negative());
    assert!(!duration2.to_std().is_ok());
    let std_duration2 = duration2.neg().to_std().unwrap();
    assert_eq!(std_duration2, time::Duration::new(3600 * 2, 0));
    assert_eq!(FloatDuration::from_std(std_duration2), duration2.neg());

    assert_eq!(
        FloatDuration::zero().to_std().unwrap(),
        time::Duration::new(0, 0)
    );
    assert!(FloatDuration::nanoseconds(b(-1.0)).to_std().is_err());
    assert!(FloatDuration::max_value().to_std().is_err());

    assert_eq!(
        FloatDuration::from_std(time::Duration::new(0, 1)),
        FloatDuration::nanoseconds(b(1.0))
    );
    assert_eq!(
        FloatDuration::from_std(time::Duration::new(1, 1)),
        FloatDuration::seconds(b(1.0)).add(FloatDuration::nanoseconds(b(1.0)))
    );
}

#[test]
fn test_display() {
    assert_eq!(show(FloatDuration::minutes(b(3.5))), "3.5 minutes");
    assert_eq!(
        show(FloatDuration::days(b(3.0)).add(FloatDuration::hours(b(12.0)))),
        "3.5 days"
    );
    assert_eq!(show(FloatDuration::seconds(b(12.7))), "12.7 seconds");
    assert_eq!(show(FloatDuration::default()), "0 nanoseconds");

    assert_eq!(
        show(FloatDuration::microseconds(b(100.0))),
        "100 microseconds"
    );
    assert_eq!(
        show(FloatDuration::milliseconds(b(12.5))),
        "12.5 milliseconds"
    );

    assert_eq!(
        show(FloatDuration::days(b(325.0)).add(FloatDuration::hours(b(6.0)))),
        "325.25 days"
    );
    assert_eq!(
        show(FloatDuration::milliseconds(b(50.0)).add(FloatDuration::microseconds(b(500.0)))),
        "50.5 milliseconds"
    );

    assert_eq!(
        show(FloatDuration::nanoseconds(b(25.25))),
        "25.25 nanoseconds"
    );
    assert_eq!(show(FloatDuration::minutes(b(90.0))), "1.5 hours");
    assert_eq!(show(FloatDuration::years(b(2.5))), "2.5 years");
}

#[test]
fn test_sum() {
    let zero: [FloatDuration; 0] = [];

    assert_eq!(FloatDuration::sum(&zero), FloatDuration::zero());

    assert_eq!(
        FloatDuration::sum(&[
            FloatDuration::milliseconds(b(50.0)),
            FloatDuration::milliseconds(b(30.0)),
            FloatDuration::zero()
        ]),
        FloatDuration::milliseconds(b(80.0))
    );
    assert_eq!(
        FloatDuration::sum(&[FloatDuration::days(b(2.0))]),
        FloatDuration::days(b(2.0))
    );
}

#[test]
fn test_chrono_conversion() {
    assert_eq!(
        FloatDuration::from_chrono(chrono::Duration::minutes(10)),
        FloatDuration::minutes(b(10.0))
    );
    assert_eq!(
        FloatDuration::from_chrono(chrono::Duration::hours(72)),
        FloatDuration::days(b(3.0))
    );
    assert_eq!(
        FloatDuration::from_chrono(chrono::Duration::nanoseconds(500)),
        FloatDuration::nanoseconds(b(500.0))
    );
    assert_eq!(
        FloatDuration::from_chrono(chrono::Duration::microseconds(-20000)),
        FloatDuration::milliseconds(b(-20.0))
    );
    assert_eq!(
        FloatDuration::from_chrono(chrono::Duration::zero()),
        FloatDuration::zero()
    );
    assert_eq!(
        FloatDuration::from_chrono(chrono::Duration::hours(10000)),
        FloatDuration::hours(b(10000.0))
    );
    assert_eq!(
        FloatDuration::from_chrono(chrono::Duration::milliseconds(1i64 << 62)),
        FloatDuration::milliseconds(b((1i64 << 62) as f64))
    );

    assert_eq!(
        FloatDuration::minutes(b(2.5)).to_chrono().unwrap(),
        chrono::Duration::seconds(150)
    );
    assert_eq!(
        FloatDuration::milliseconds(b(250.050)).to_chrono().unwrap(),
        chrono::Duration::microseconds(250050)
    );
    assert!(FloatDuration::max_value().to_chrono().is_err());
    assert_eq!(
        FloatDuration::nanoseconds(b(-20.0)).to_chrono().unwrap(),
        chrono::Duration::nanoseconds(-20)
    );
}

#[test]
fn test_chrono_timepoint() {
    let date1 = NaiveDate::from_ymd_opt(2017, 5, 25)
        .unwrap()
        .and_hms_opt(10, 0, 0)
        .unwrap();
    let date2 = NaiveDate::from_ymd_opt(2017, 5, 26)
        .unwrap()
        .and_hms_opt(12, 0, 0)
        .unwrap();

    assert_eq!(
        date2.float_duration_since(date1).unwrap(),
        FloatDuration::days(b(1.0)).add(FloatDuration::hours(b(2.0)))
    );

    let date3 = Local::now().naive_local();
    assert_eq!(
        date3.float_duration_since(date3).unwrap(),
        FloatDuration::zero()
    );
    let later = date3 + chrono::Duration::milliseconds(1);
    assert!(date3.float_duration_since(later).unwrap() < FloatDuration::zero());
}

#[test]
fn test_subdivide() {
    let s = subdivide(FloatDuration::zero(), FloatDuration::minutes(b(1.0)), 3);
    let s_rev = s.clone();
    assert_eq!(
        s.collect(),
        vec![
            FloatDuration::zero(),
            FloatDuration::seconds(b(30.0)),
            FloatDuration::minutes(b(1.0))
        ]
    );
    assert_eq!(
        s_rev.collect_reversed(),
        vec![
            FloatDuration::minutes(b(1.0)),
            FloatDuration::seconds(b(30.0)),
            FloatDuration::zero()
        ]
    );
}
