use float_duration::Binary64;

fn b(x: f64) -> Binary64 {
    Binary64::from_bits(x.to_bits())
}

fn same(got: Binary64, want: f64) -> bool {
    if want.is_nan() {
        got.is_nan()
    } else {
        got.to_bits() == want.to_bits()
    }
}

fn samples() -> Vec<f64> {
    let mut v = vec![
        0.0,
        -0.0,
        1.0,
        -1.0,
        2.0,
        3.0,
        0.5,
        0.1,
        0.2,
        0.3,
        1.0e-3,
        1.0e-6,
        1.0e-9,
        1.0e3,
        1.0e6,
        1.0e9,
        60.0,
        3600.0,
        86400.0,
        31536000.0,
        12.7,
        250.050,
        0.055,
        1.5,
        -3.0,
        7.5,
        36.0,
        1.0e300,
        -1.0e300,
        1.0e-300,
        1.0e-310,
        5.0e-324,
        -5.0e-324,
        2.2250738585072014e-308,
        2.225073858507201e-308,
        f64::MAX,
        f64::MIN,
        f64::EPSILON,
        f64::INFINITY,
        f64::NEG_INFINITY,
        f64::NAN,
        9007199254740992.0,
        9007199254740993.0,
        4503599627370496.5,
        1.0000000000000002,
        0.9999999999999999,
        18446744073709551615.0,
        1.7976931348623155e308,
        8.98846567431158e307,
        123456789.123456789,
        -987654321.987654321,
        3.141592653589793,
        2.718281828459045,
    ];
    // a deterministic spread of further patterns
    let mut state: u64 = 0x9e37_79b9_7f4a_7c15;
    for _ in 0..60 {
        state ^= state << 13;
        state ^= state >> 7;
        state ^= state << 17;
        v.push(f64::from_bits(state));
        // the same significand near one, so that sums and differences cancel
        v.push(f64::from_bits((state & 0x000f_ffff_ffff_ffff) | 0x3ff0_0000_0000_0000));
        v.push(f64::from_bits((state & 0x800f_ffff_ffff_ffff) | 0x0010_0000_0000_0000));
        v.push(f64::from_bits(state & 0x800f_ffff_ffff_ffff));
    }
    v
}

#[test]
fn multiplication_matches_the_hardware() {
    let v = samples();
    for &x in &v {
        for &y in &v {
            assert!(same(b(x).mul(b(y)), x * y), "{:e} * {:e}", x, y);
        }
    }
}

#[test]
fn division_matches_the_hardware() {
    let v = samples();
    for &x in &v {
        for &y in &v {
            assert!(same(b(x).div(b(y)), x / y), "{:e} / {:e}", x, y);
        }
    }
}

#[test]
fn addition_matches_the_hardware() {
    let v = samples();
    for &x in &v {
        for &y in &v {
            assert!(same(b(x).add(b(y)), x + y), "{:e} + {:e}", x, y);
        }
    }
}

#[test]
fn subtraction_matches_the_hardware() {
    let v = samples();
    for &x in &v {
        for &y in &v {
            assert!(same(b(x).sub(b(y)), x - y), "{:e} - {:e}", x, y);
        }
    }
}

#[test]
fn negation_and_absolute_value_touch_only_the_sign() {
    for &x in &samples() {
        assert_eq!(b(x).neg().to_bits(), (-x).to_bits());
        assert_eq!(b(x).abs().to_bits(), x.abs().to_bits());
        assert_eq!(b(x).is_sign_negative(), x.is_sign_negative());
        assert_eq!(b(x).is_nan(), x.is_nan());
        assert_eq!(b(x).is_infinite(), x.is_infinite());
        assert_eq!(b(x).is_finite(), x.is_finite());
    }
}
