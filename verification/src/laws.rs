//! What holds of the operations together, proved from their definitions.
use vstd::prelude::*;
use vstd::arithmetic::power2::{pow2, lemma_pow2_adds, lemma_pow2_pos};
use crate::arithmetic::{
    add_spec, div_spec, lemma_magnitude_parts, magnitude_of, mul_spec, signed, sub_spec,
    sum_of_parts,
};
use crate::binary64::{Binary64, INFINITY_BITS, ieee_eq_spec, ieee_lt_spec};
use crate::conversion::{seconds_of_parts, std_parts};
use crate::convert::{fract_spec, from_int_spec, saturating_whole, trunc_spec, whole_magnitude};
use crate::decomposed::{decompose_spec, lemma_clock_parts, recompose_spec};
use crate::display::ONE;
use crate::duration::{NANOS_PER_SEC, SECS_PER_DAY, SECS_PER_HOUR, SECS_PER_MINUTE};
use crate::iter::{lattice_point, step_between};
use crate::rounding::{
    clip, lemma_pow2_monotonic, lemma_pow2_values, lemma_quotient_bounds, lemma_quotient_scales,
    lemma_round_exact, lemma_round_ratio_bound, lemma_round_same_value, lemma_round_zero,
    lemma_scaled_den_positive, lemma_ulp_exponent_exists, nearest_even, quotient_at, round_ratio,
    same_value, scaled_den, scaled_num, ulp_exponent,
};
use crate::whole::{
    holds_signed, holds_value, holds_whole, lemma_from_int_holds, lemma_nearest_holds,
    lemma_same_value_chain, lemma_signed_add_holds, lemma_signed_div_exact,
    lemma_signed_mul_whole, lemma_signed_sub_holds, lemma_signed_unique, lemma_value_add,
    lemma_value_is_nearest, lemma_value_rescale, lemma_value_sub, lemma_whole_add,
    lemma_whole_div_exact, lemma_whole_div_trunc, lemma_whole_magnitude, lemma_whole_mul, nearest,
};

verus! {

/// The order of the factors does not change a product.
pub proof fn lemma_mul_commutative(a: Binary64, b: Binary64)
    ensures
        mul_spec(a, b) == mul_spec(b, a),
{
    assert(a.significand() * b.significand() == b.significand() * a.significand())
        by (nonlinear_arith);
}

/// A double is its sign and its magnitude.
pub proof fn lemma_compose_parts(a: Binary64)
    ensures
        Binary64::compose(a.sign(), a.magnitude()) == a,
{
}

/// The order of the patterns is the order of the values: of two finite
/// doubles with a clear sign, `a` is below `b` exactly where `ma * 2^ea` is
/// below `mb * 2^eb`, both written with the smaller of the two exponents.
pub proof fn lemma_order_by_value(a: Binary64, b: Binary64)
    requires
        a.is_finite_spec(),
        b.is_finite_spec(),
        !a.sign(),
        !b.sign(),
    ensures
        ieee_lt_spec(a, b) <==> a.significand() * pow2(clip(a.exponent() - b.exponent()))
            < b.significand() * pow2(clip(b.exponent() - a.exponent())),
{
    lemma_pow2_values();
    lemma_magnitude_parts(a);
    lemma_magnitude_parts(b);
    let ma = a.significand();
    let ea = a.exponent();
    let mb = b.significand();
    let eb = b.exponent();
    if ea == eb {
        assert(ma * pow2(0) == ma && mb * pow2(0) == mb) by (nonlinear_arith)
            requires
                pow2(0) == 1,
        ;
    } else if ea < eb {
        // b is normal and in a higher binade
        let g = (eb - ea) as nat;
        lemma_pow2_monotonic(1, g);
        assert(ma * pow2(0) == ma) by (nonlinear_arith)
            requires
                pow2(0) == 1,
        ;
        assert(mb * pow2(g) >= pow2(52) * 2) by (nonlinear_arith)
            requires
                mb >= pow2(52),
                pow2(g) >= 2,
        ;
        assert((ea + 1074) * pow2(52) + pow2(52) <= (eb + 1074) * pow2(52)) by (nonlinear_arith)
            requires
                ea < eb,
        ;
    } else {
        let g = (ea - eb) as nat;
        lemma_pow2_monotonic(1, g);
        assert(mb * pow2(0) == mb) by (nonlinear_arith)
            requires
                pow2(0) == 1,
        ;
        assert(ma * pow2(g) >= pow2(52) * 2) by (nonlinear_arith)
            requires
                ma >= pow2(52),
                pow2(g) >= 2,
        ;
        assert((eb + 1074) * pow2(52) + pow2(52) <= (ea + 1074) * pow2(52)) by (nonlinear_arith)
            requires
                eb < ea,
        ;
    }
}

/// The product of a finite double and a zero is a zero, negative where
/// exactly one of the two is.
pub proof fn lemma_mul_zero(a: Binary64, z: Binary64)
    requires
        a.is_finite_spec(),
        z.is_zero_spec(),
    ensures
        mul_spec(a, z) == Binary64::compose(a.sign() != z.sign(), 0),
{
    lemma_pow2_values();
    assert(z.significand() == 0);
    assert(a.significand() * z.significand() == 0) by (nonlinear_arith)
        requires
            z.significand() == 0,
    ;
    lemma_round_zero(1, a.exponent() + z.exponent());
}

/// Adding a zero to a number gives a number equal to it: the same double,
/// unless both are zeros, whose sum is a zero.
pub proof fn lemma_add_zero(a: Binary64, z: Binary64)
    requires
        !a.is_nan_spec(),
        z.is_zero_spec(),
    ensures
        ieee_eq_spec(add_spec(a, z), a),
        !a.is_zero_spec() ==> add_spec(a, z) == a,
{
    lemma_pow2_values();
    if a.is_finite_spec() {
        lemma_magnitude_parts(a);
        assert(z.significand() == 0 && z.exponent() == -1074);
        let m = a.significand();
        let e = a.exponent();
        let g = (e + 1074) as nat;
        lemma_pow2_pos(g);
        let total = signed(a.sign(), m) * pow2(g) + signed(z.sign(), 0);
        assert(add_spec(a, z) == sum_of_parts(a.sign(), m, e, z.sign(), 0, -1074));
        if m == 0 {
            assert(total == 0) by (nonlinear_arith)
                requires
                    total == signed(a.sign(), m) * pow2(g) + signed(z.sign(), 0),
                    signed(a.sign(), m) == 0,
                    signed(z.sign(), 0) == 0,
            ;
        } else {
            assert(total == signed(a.sign(), m * pow2(g))) by (nonlinear_arith)
                requires
                    total == signed(a.sign(), m) * pow2(g) + signed(z.sign(), 0),
                    signed(z.sign(), 0) == 0,
                    signed(a.sign(), m) == if a.sign() {
                        -(m as int)
                    } else {
                        m as int
                    },
                    signed(a.sign(), m * pow2(g)) == if a.sign() {
                        -((m * pow2(g)) as int)
                    } else {
                        (m * pow2(g)) as int
                    },
            ;
            assert(m * pow2(g) > 0) by (nonlinear_arith)
                requires
                    m > 0,
                    pow2(g) > 0,
            ;
            assert(magnitude_of(total) == m * pow2(g));
            lemma_round_exact(m, e, g);
            lemma_compose_parts(a);
        }
    }
}

/// The double nearest to the integer zero is positive zero.
pub proof fn lemma_from_int_zero()
    ensures
        from_int_spec(0) == Binary64::from_bits(0),
{
    lemma_round_zero(1, 0);
}

/// The first point of a lattice equals its start, where the start is a
/// number and the step is finite.
pub proof fn lemma_lattice_starts_at_start(start: Binary64, step: Binary64)
    requires
        !start.is_nan_spec(),
        step.is_finite_spec(),
    ensures
        ieee_eq_spec(lattice_point(start, step, 0), start),
        !start.is_zero_spec() ==> lattice_point(start, step, 0) == start,
{
    lemma_from_int_zero();
    lemma_mul_zero(step, from_int_spec(0));
    lemma_add_zero(start, mul_spec(step, from_int_spec(0)));
}

/// A count of seconds with the sign bit set has no conversion to
/// `std::time::Duration`, whatever its magnitude: not a clamped zero.
pub proof fn lemma_negative_is_out_of_range(x: Binary64)
    requires
        x.sign(),
    ensures
        std_parts(x).is_none(),
{
}

/// Whether a double is a whole number: finite, and without a fractional
/// part.
pub open spec fn is_whole(x: Binary64) -> bool {
    x.is_finite_spec() && (x.exponent() >= 0 || x.significand() % pow2((-x.exponent()) as nat)
        == 0)
}

/// A whole number is the double nearest to its own integer part.
pub proof fn lemma_whole_rounds_to_itself(x: Binary64)
    requires
        is_whole(x),
    ensures
        round_ratio(whole_magnitude(x), 1, 0) == x.magnitude(),
{
    lemma_pow2_values();
    lemma_magnitude_parts(x);
    let m = x.significand();
    let e = x.exponent();
    if e >= 0 {
        lemma_round_exact(m, e, e as nat);
    } else {
        let t = (-e) as nat;
        let w = m / pow2(t);
        lemma_pow2_pos(t);
        vstd::arithmetic::div_mod::lemma_fundamental_div_mod(m as int, pow2(t) as int);
        assert(m == w * pow2(t)) by (nonlinear_arith)
            requires
                m == pow2(t) * w + 0,
        ;
        lemma_round_exact(m, e, 0);
        assert(m * pow2(0) == m) by (nonlinear_arith)
            requires
                pow2(0) == 1,
        ;
        assert(same_value(m, 1, e, w, 1, 0)) by (nonlinear_arith)
            requires
                m == w * pow2(t),
                pow2(0) == 1,
                pow2(clip(e)) == 1,
                pow2(clip(-e)) == pow2(t),
                same_value(m, 1, e, w, 1, 0) == (m * 1 * pow2(clip(e)) == w * 1 * pow2(
                    clip(-e),
                )),
        ;
        lemma_round_same_value(m, 1, e, w, 1, 0, e);
    }
}

/// A whole number has no fractional part to lose: its integer part is the
/// number itself.
pub proof fn lemma_trunc_whole(x: Binary64)
    requires
        is_whole(x),
    ensures
        trunc_spec(x) == x,
{
    lemma_whole_rounds_to_itself(x);
    lemma_compose_parts(x);
}

/// A finite number minus itself is positive zero.
pub proof fn lemma_sub_self(x: Binary64)
    requires
        x.is_finite_spec(),
    ensures
        sub_spec(x, x) == Binary64::from_bits(0),
{
    lemma_pow2_values();
    let m = x.significand();
    let total = signed(x.sign(), m) * pow2(0) + signed(!x.sign(), m);
    assert(total == 0) by (nonlinear_arith)
        requires
            total == signed(x.sign(), m) * pow2(0) + signed(!x.sign(), m),
            pow2(0) == 1,
            signed(x.sign(), m) == -signed(!x.sign(), m),
    ;
    let other = Binary64::compose(!x.sign(), x.magnitude());
    assert(other.magnitude() == x.magnitude());
    assert(other.sign() == !x.sign());
}

/// Round trip through the monotonic representation, for whole seconds: a
/// whole, non-negative count of seconds within 64 bits converts to that many
/// seconds and no nanoseconds, and those convert back to the same double.
pub proof fn lemma_whole_seconds_round_trip(x: Binary64)
    requires
        !x.sign(),
        is_whole(x),
        whole_magnitude(x) <= u64::MAX,
    ensures
        std_parts(x) == Some((whole_magnitude(x) as u64, 0u32)),
        seconds_of_parts(whole_magnitude(x) as u64, 0u32) == x,
{
    lemma_pow2_values();
    let zero = Binary64::from_bits(0);
    let giga = Binary64::from_bits(NANOS_PER_SEC);
    // nothing is left below the second
    lemma_trunc_whole(x);
    lemma_sub_self(x);
    assert(fract_spec(x) == zero);
    lemma_mul_zero(giga, zero);
    lemma_mul_commutative(giga, zero);
    assert(mul_spec(zero, giga) == zero);
    assert(zero.significand() == 0 && zero.exponent() == -1074);
    lemma_pow2_pos(1074);
    assert(0nat / pow2(1074) == 0) by (nonlinear_arith)
        requires
            pow2(1074) > 0,
    ;
    assert(whole_magnitude(zero) == 0);
    assert(saturating_whole(zero, u32::MAX as nat) == 0);
    // and the seconds come back as they were
    lemma_whole_rounds_to_itself(x);
    lemma_compose_parts(x);
    assert(from_int_spec(whole_magnitude(x) as int) == x);
    lemma_from_int_zero();
    assert(giga.significand() > 0);
    lemma_round_zero(giga.significand(), zero.exponent() - giga.exponent());
    assert(div_spec(zero, giga) == zero);
    lemma_add_zero(x, zero);
    if x.is_zero_spec() {
        assert(x == zero);
        assert(add_spec(zero, zero) == zero) by {
            let total = signed(false, 0) * pow2(0) + signed(false, 0);
            assert(total == 0) by (nonlinear_arith)
                requires
                    total == signed(false, 0) * pow2(0) + signed(false, 0),
                    signed(false, 0) == 0,
            ;
        }
    }
}

/// Whether the product of two doubles is exact: finite, and of the very
/// value of the two multiplied, with nothing rounded away.
pub open spec fn product_is_exact(a: Binary64, b: Binary64) -> bool {
    let r = mul_spec(a, b);
    &&& a.is_finite_spec()
    &&& b.is_finite_spec()
    &&& r.is_finite_spec()
    &&& same_value(
        r.significand(),
        1,
        r.exponent(),
        a.significand() * b.significand(),
        1,
        a.exponent() + b.exponent(),
    )
}

/// An exact product with 3600, divided by 60, has the value of the product
/// with 60: 3600 is sixty times sixty.
proof fn lemma_rescale_hours(mr: nat, mx: nat, k: int)
    requires
        mr * pow2(clip(k + 41)) == mx * 0x1c_2000_0000_0000 * pow2(clip(-41 - k)),
    ensures
        mr * pow2(clip(k + 94)) == mx * (0x1e_0000_0000_0000 * 0x1e_0000_0000_0000) * pow2(
            clip(-94 - k),
        ),
{
    lemma_pow2_values();
    let h: nat = 0x1c_2000_0000_0000;
    let m: nat = 0x1e_0000_0000_0000;
    assert(m * m == h * pow2(53)) by (nonlinear_arith)
        requires
            h == 0x1c_2000_0000_0000,
            m == 0x1e_0000_0000_0000,
            pow2(53) == 0x20_0000_0000_0000,
    ;
    if k >= -41 {
        lemma_pow2_adds((k + 41) as nat, 53);
        assert(mr * pow2((k + 94) as nat) == mx * (m * m) * pow2(0)) by (nonlinear_arith)
            requires
                mr * pow2((k + 41) as nat) == mx * h * pow2(0),
                pow2((k + 94) as nat) == pow2((k + 41) as nat) * pow2(53),
                m * m == h * pow2(53),
                pow2(0) == 1,
        ;
    } else if k >= -94 {
        lemma_pow2_adds((-41 - k) as nat, (k + 94) as nat);
        assert(mr * pow2((k + 94) as nat) == mx * (m * m) * pow2(0)) by (nonlinear_arith)
            requires
                mr * pow2(0) == mx * h * pow2((-41 - k) as nat),
                pow2(53) == pow2((-41 - k) as nat) * pow2((k + 94) as nat),
                m * m == h * pow2(53),
                pow2(0) == 1,
        ;
    } else {
        lemma_pow2_adds(53, (-94 - k) as nat);
        assert(mr * pow2(0) == mx * (m * m) * pow2((-94 - k) as nat)) by (nonlinear_arith)
            requires
                mr * pow2(0) == mx * h * pow2((-41 - k) as nat),
                pow2((-41 - k) as nat) == pow2(53) * pow2((-94 - k) as nat),
                m * m == h * pow2(53),
        ;
    }
}

/// Hours given in minutes are the number times sixty, where the hours are
/// exact in seconds: wherever `x * 3600` is computed without rounding,
/// `hours(x).as_minutes()` is the double `x * 60`.
pub proof fn lemma_hours_as_minutes(x: Binary64)
    requires
        product_is_exact(x, Binary64::from_bits(SECS_PER_HOUR)),
    ensures
        div_spec(
            mul_spec(x, Binary64::from_bits(SECS_PER_HOUR)),
            Binary64::from_bits(SECS_PER_MINUTE),
        ) == mul_spec(x, Binary64::from_bits(SECS_PER_MINUTE)),
{
    lemma_pow2_values();
    let hour = Binary64::from_bits(SECS_PER_HOUR);
    let minute = Binary64::from_bits(SECS_PER_MINUTE);
    let r = mul_spec(x, hour);
    assert(hour.significand() == 0x1c_2000_0000_0000 && hour.exponent() == -41);
    assert(minute.significand() == 0x1e_0000_0000_0000 && minute.exponent() == -47);
    assert(!hour.sign() && !minute.sign());
    let mr = r.significand();
    let er = r.exponent();
    let mx = x.significand();
    let ex = x.exponent();
    let mm = minute.significand();
    // the sign of the product is the sign of x
    lemma_round_ratio_bound(mx * hour.significand(), 1, ex + hour.exponent());
    assert(r.sign() == x.sign());
    // the two sides round the same value
    lemma_rescale_hours(mr, mx, er - ex);
    assert(same_value(mr, mm, er + 47, mx * mm, 1, ex - 47)) by (nonlinear_arith)
        requires
            mr * pow2(clip(er - ex + 94)) == mx * (mm * mm) * pow2(clip(-94 - (er - ex))),
            same_value(mr, mm, er + 47, mx * mm, 1, ex - 47) == (mr * 1 * pow2(
                clip((er + 47) - (ex - 47)),
            ) == (mx * mm) * mm * pow2(clip((ex - 47) - (er + 47)))),
            clip((er + 47) - (ex - 47)) == clip(er - ex + 94),
            clip((ex - 47) - (er + 47)) == clip(-94 - (er - ex)),
    ;
    lemma_ulp_exponent_exists(mr, mm, er + 47);
    lemma_round_same_value(mr, mm, er + 47, mx * mm, 1, ex - 47, ulp_exponent(mr, mm, er + 47));
}

/// The whole and the fractional part of a finite double with a clear sign:
/// the fractional part has a clear sign and is below one, and the two parts
/// add up to the double, exactly.
pub proof fn lemma_fract_parts(a: Binary64)
    requires
        a.is_finite_spec(),
        !a.sign(),
    ensures
        !fract_spec(a).sign(),
        ieee_lt_spec(fract_spec(a), Binary64::from_bits(ONE)),
        add_spec(trunc_spec(a), fract_spec(a)) == a,
        trunc_spec(a) == from_int_spec(whole_magnitude(a) as int),
{
    lemma_pow2_values();
    lemma_magnitude_parts(a);
    let m = a.significand();
    let e = a.exponent();
    let zero = Binary64::from_bits(0);
    if e >= 0 {
        assert(is_whole(a));
        lemma_trunc_whole(a);
        lemma_sub_self(a);
        lemma_add_zero(a, zero);
    } else {
        let t = (-e) as nat;
        let p = pow2(t);
        lemma_pow2_pos(t);
        let w = m / p;
        let r = m % p;
        vstd::arithmetic::div_mod::lemma_fundamental_div_mod(m as int, p as int);
        vstd::arithmetic::div_mod::lemma_mod_division_less_than_divisor(m as int, p as int);
        assert(w * p + r == m) by (nonlinear_arith)
            requires
                m == p * w + r,
        ;
        assert(w <= m) by (nonlinear_arith)
            requires
                w * p + r == m,
                p >= 1,
                r >= 0,
        ;
        // the whole part, written with the places of the double
        let whole = trunc_spec(a);
        assert(whole == nearest(w, 0));
        lemma_nearest_holds(w, 0);
        lemma_value_rescale(whole, w, 0, t);
        // the double itself
        assert(holds_value(a, m, e)) by {
            assert(m * 1 * pow2(clip(e - e)) == m * 1 * pow2(clip(e - e)));
        }
        lemma_value_sub(a, whole, m, w * p, e);
        let part = fract_spec(a);
        assert(part == nearest(r, e));
        lemma_nearest_holds(r, e);
        lemma_value_add(whole, part, w * p, r, e);
        lemma_value_is_nearest(a, m, e);
        // the fractional part is below one
        let fs = part.significand();
        let fe = part.exponent();
        lemma_magnitude_parts(part);
        if part.magnitude() >= ONE {
            assert(fe >= -52 && fs >= pow2(52));
            assert(fs * 1 * pow2(clip(fe - e)) == r * 1 * pow2(clip(e - fe)));
            if fe >= e {
                let g = (fe - e) as nat;
                lemma_pow2_adds(52, g);
                lemma_pow2_monotonic(t, 52 + g);
                assert(fs * pow2(g) >= pow2(52) * pow2(g)) by (nonlinear_arith)
                    requires
                        fs >= pow2(52),
                ;
                assert(fs * 1 * pow2(g) == fs * pow2(g) && r * 1 * pow2(0) == r)
                    by (nonlinear_arith)
                    requires
                        pow2(0) == 1,
                ;
            } else {
                let g = (e - fe) as nat;
                lemma_pow2_adds(t, g);
                lemma_pow2_monotonic(t + g, 52);
                lemma_pow2_pos(g);
                assert(r * pow2(g) < p * pow2(g)) by (nonlinear_arith)
                    requires
                        r < p,
                        pow2(g) > 0,
                ;
                assert(fs * 1 * pow2(0) == fs && r * 1 * pow2(g) == r * pow2(g))
                    by (nonlinear_arith)
                    requires
                        pow2(0) == 1,
                ;
            }
        }
    }
}

/// Decomposing a duration and putting the components together again gives
/// the duration back, exactly: for every finite count of seconds whose
/// days a `u32` holds, the result equals the count, and it is the very same
/// double unless the count is negative zero, which comes back as zero.
pub proof fn lemma_decompose_round_trip(x: Binary64)
    requires
        x.is_finite_spec(),
        whole_magnitude(Binary64::compose(false, x.magnitude())) < pow2(32) * 86400,
    ensures
        ieee_eq_spec(recompose_spec(decompose_spec(x)), x),
        !(x.sign() && x.is_zero_spec()) ==> recompose_spec(decompose_spec(x)) == x,
{
    lemma_pow2_values();
    vstd::arithmetic::power2::lemma2_to64();
    vstd::arithmetic::power2::lemma2_to64_rest();
    let day = Binary64::from_bits(SECS_PER_DAY);
    let hour = Binary64::from_bits(SECS_PER_HOUR);
    let minute = Binary64::from_bits(SECS_PER_MINUTE);
    lemma_units_hold();
    let length = Binary64::compose(false, x.magnitude());
    assert(length.is_finite_spec() && !length.sign() && length.magnitude() == x.magnitude());
    let n = whole_magnitude(length);
    let d = n / 86400;
    let h = n % 86400 / 3600;
    let m = n % 3600 / 60;
    let s = n % 60;
    lemma_clock_parts(n);
    vstd::arithmetic::div_mod::lemma_fundamental_div_mod(n as int, 86400);
    assert(d < pow2(32));
    assert(d * 86400 + h * 3600 + m * 60 + s == n);
    let t = decompose_spec(x);
    assert(t.days == d && t.hours == h && t.minutes == m && t.seconds == s);
    assert(t.fractional_seconds == fract_spec(length));
    // the whole seconds
    lemma_from_int_holds(d);
    lemma_from_int_holds(h);
    lemma_from_int_holds(m);
    lemma_from_int_holds(s);
    lemma_whole_mul(from_int_spec(d as int), day, d, 86400);
    lemma_whole_mul(from_int_spec(h as int), hour, h, 3600);
    lemma_whole_mul(from_int_spec(m as int), minute, m, 60);
    lemma_from_int_holds(d * 86400);
    lemma_from_int_holds(h * 3600);
    lemma_from_int_holds(m * 60);
    lemma_whole_add(
        from_int_spec((d * 86400) as int),
        from_int_spec((h * 3600) as int),
        d * 86400,
        h * 3600,
    );
    lemma_from_int_holds(d * 86400 + h * 3600);
    lemma_whole_add(
        from_int_spec((d * 86400 + h * 3600) as int),
        from_int_spec((m * 60) as int),
        d * 86400 + h * 3600,
        m * 60,
    );
    lemma_from_int_holds(d * 86400 + h * 3600 + m * 60);
    lemma_whole_add(
        from_int_spec((d * 86400 + h * 3600 + m * 60) as int),
        from_int_spec(s as int),
        d * 86400 + h * 3600 + m * 60,
        s,
    );
    // and what is left below the second
    lemma_fract_parts(length);
    let together = add_spec(from_int_spec(n as int), fract_spec(length));
    assert(together == length);
    lemma_compose_parts(x);
}

/// The components of a finite duration stay within their ranges: fewer
/// than 24 hours, 60 minutes and 60 seconds, and fractional seconds from
/// zero up to, but not including, one.
pub proof fn lemma_decompose_ranges(x: Binary64)
    requires
        x.is_finite_spec(),
    ensures
        decompose_spec(x).hours < 24,
        decompose_spec(x).minutes < 60,
        decompose_spec(x).seconds < 60,
        !decompose_spec(x).fractional_seconds.sign(),
        ieee_lt_spec(decompose_spec(x).fractional_seconds, Binary64::from_bits(ONE)),
        decompose_spec(x).well_formed(),
{
    let length = Binary64::compose(false, x.magnitude());
    assert(length.is_finite_spec() && !length.sign());
    lemma_clock_parts(whole_magnitude(length));
    lemma_fract_parts(length);
}

/// The day, the hour and the minute are whole numbers of seconds.
pub proof fn lemma_units_hold()
    ensures
        holds_whole(Binary64::from_bits(SECS_PER_DAY), 86400),
        holds_whole(Binary64::from_bits(SECS_PER_HOUR), 3600),
        holds_whole(Binary64::from_bits(SECS_PER_MINUTE), 60),
{
    lemma_pow2_values();
    vstd::arithmetic::power2::lemma2_to64_rest();
    let day = Binary64::from_bits(SECS_PER_DAY);
    let hour = Binary64::from_bits(SECS_PER_HOUR);
    let minute = Binary64::from_bits(SECS_PER_MINUTE);
    assert(day.significand() == 0x15_1800_0000_0000 && day.exponent() == -36);
    assert(pow2(36) == 0x10_0000_0000);
    assert(day.significand() * 1 * pow2(0) == 86400 * 1 * pow2(36)) by (nonlinear_arith)
        requires
            day.significand() == 0x15_1800_0000_0000,
            pow2(36) == 0x10_0000_0000,
            pow2(0) == 1,
    ;
    assert(hour.significand() == 0x1c_2000_0000_0000 && hour.exponent() == -41);
    assert(pow2(41) == 0x200_0000_0000);
    assert(hour.significand() * 1 * pow2(0) == 3600 * 1 * pow2(41)) by (nonlinear_arith)
        requires
            hour.significand() == 0x1c_2000_0000_0000,
            pow2(41) == 0x200_0000_0000,
            pow2(0) == 1,
    ;
    assert(minute.significand() == 0x1e_0000_0000_0000 && minute.exponent() == -47);
    assert(pow2(47) == 0x8000_0000_0000);
    assert(minute.significand() * 1 * pow2(0) == 60 * 1 * pow2(47)) by (nonlinear_arith)
        requires
            minute.significand() == 0x1e_0000_0000_0000,
            pow2(47) == 0x8000_0000_0000,
            pow2(0) == 1,
    ;
}

/// Hours given in minutes, for whole hours: `hours(x).as_minutes()` is the
/// double `x * 60` where `x` is a whole number of at most `2^41` hours.
pub proof fn lemma_whole_hours_as_minutes(x: Binary64, n: nat)
    requires
        holds_whole(x, n),
        n <= pow2(41),
    ensures
        div_spec(
            mul_spec(x, Binary64::from_bits(SECS_PER_HOUR)),
            Binary64::from_bits(SECS_PER_MINUTE),
        ) == mul_spec(x, Binary64::from_bits(SECS_PER_MINUTE)),
        mul_spec(x, Binary64::from_bits(SECS_PER_MINUTE)) == from_int_spec((n * 60) as int),
{
    lemma_pow2_values();
    vstd::arithmetic::power2::lemma2_to64_rest();
    let hour = Binary64::from_bits(SECS_PER_HOUR);
    let minute = Binary64::from_bits(SECS_PER_MINUTE);
    lemma_units_hold();
    lemma_whole_mul(x, hour, n, 3600);
    assert(n * 3600 < pow2(53)) by (nonlinear_arith)
        requires
            n <= pow2(41),
            pow2(41) == 0x200_0000_0000,
            pow2(53) == 0x20_0000_0000_0000,
    ;
    lemma_from_int_holds(n * 3600);
    assert((n * 3600) % 60 == 0 && (n * 3600) / 60 == n * 60);
    lemma_whole_div_exact(from_int_spec((n * 3600) as int), minute, n * 3600, 60);
    lemma_whole_mul(x, minute, n, 60);
}

/// A fraction that is at most `n` rounds to at most `n`.
proof fn lemma_nearest_even_bound(num: nat, den: nat, n: nat)
    requires
        den > 0,
        num <= n * den,
    ensures
        nearest_even(num, den) <= n,
{
    let q = num / den;
    let r = num % den;
    vstd::arithmetic::div_mod::lemma_fundamental_div_mod(num as int, den as int);
    vstd::arithmetic::div_mod::lemma_mod_division_less_than_divisor(num as int, den as int);
    assert(q < n || (q == n && r == 0)) by (nonlinear_arith)
        requires
            num == den * q + r,
            0 <= r < den,
            num <= n * den,
    ;
}

/// The double nearest to a whole number from one up to `2^64` is finite and
/// at least one.
pub proof fn lemma_from_int_at_least_one(k: nat)
    requires
        1 <= k <= pow2(64),
    ensures
        from_int_spec(k as int).is_finite_spec(),
        !from_int_spec(k as int).sign(),
        from_int_spec(k as int).magnitude() >= ONE,
{
    lemma_pow2_values();
    lemma_ulp_exponent_exists(k, 1, 0);
    let e = ulp_exponent(k, 1, 0);
    let num = scaled_num(k, 0, e);
    let den = scaled_den(1, 0, e);
    lemma_scaled_den_positive(1, 0, e);
    if e <= -53 {
        // more than 2^53 units of 2^e
        let t = (-e) as nat;
        lemma_pow2_monotonic(53, t);
        assert(den == 1) by (nonlinear_arith)
            requires
                den == 1 * pow2(0),
                pow2(0) == 1,
        ;
        assert(num >= pow2(53)) by (nonlinear_arith)
            requires
                num == k * pow2(t),
                k >= 1,
                pow2(t) >= pow2(53),
        ;
        assert(num / 1 == num);
    }
    if e >= 13 {
        // fewer than 2^52 units of 2^e
        let t = e as nat;
        lemma_pow2_monotonic(13, t);
        vstd::arithmetic::power2::lemma_pow2_adds(52, 12);
        vstd::arithmetic::power2::lemma_pow2_unfold(13);
        assert(num == k) by (nonlinear_arith)
            requires
                num == k * pow2(0),
                pow2(0) == 1,
        ;
        assert(den == pow2(t)) by (nonlinear_arith)
            requires
                den == 1 * pow2(t),
        ;
        assert(num < pow2(52) * den) by (nonlinear_arith)
            requires
                num <= pow2(64),
                pow2(64) == pow2(52) * pow2(12),
                den >= 2 * pow2(12),
                pow2(52) > 0,
                pow2(12) > 0,
        ;
        lemma_quotient_bounds(num, den, 0, pow2(52));
    }
    assert(quotient_at(k, 1, 0, e) < pow2(53));
    let m = nearest_even(num, den);
    assert(num / den <= m <= num / den + 1);
    assert((e + 1074) * pow2(52) >= (-52 + 1074) * pow2(52)) by (nonlinear_arith)
        requires
            e >= -52,
    ;
    assert((e + 1074) * pow2(52) <= (12 + 1074) * pow2(52)) by (nonlinear_arith)
        requires
            e <= 12,
    ;
}

/// Dividing a finite double by a finite double of magnitude one or more
/// gives a finite double.
pub proof fn lemma_div_stays_finite(a: Binary64, b: Binary64)
    requires
        a.is_finite_spec(),
        b.is_finite_spec(),
        b.magnitude() >= ONE,
    ensures
        div_spec(a, b).is_finite_spec(),
{
    lemma_pow2_values();
    lemma_magnitude_parts(a);
    lemma_magnitude_parts(b);
    let ma = a.significand();
    let ea = a.exponent();
    let mb = b.significand();
    let eb = b.exponent();
    assert(eb >= -52 && mb >= pow2(52));
    let s = ea - eb;
    lemma_ulp_exponent_exists(ma, mb, s);
    let e = ulp_exponent(ma, mb, s);
    // at the largest exponent of the format the quotient has at most 2^53 - 1 units
    let top = 971int;
    let num = scaled_num(ma, s, top);
    let den = scaled_den(mb, s, top);
    lemma_scaled_den_positive(mb, s, top);
    let most = (pow2(53) - 1) as nat;
    if s <= top {
        lemma_pow2_pos((top - s) as nat);
        assert(num == ma) by (nonlinear_arith)
            requires
                num == ma * pow2(0),
                pow2(0) == 1,
        ;
        assert(num <= most * den) by (nonlinear_arith)
            requires
                num <= most,
                den >= 1,
        ;
    } else {
        let g = (s - top) as nat;
        lemma_pow2_monotonic(g, 52);
        assert(den == mb) by (nonlinear_arith)
            requires
                den == mb * pow2(0),
                pow2(0) == 1,
        ;
        assert(num <= most * den) by (nonlinear_arith)
            requires
                num == ma * pow2(g),
                ma <= most,
                pow2(g) <= pow2(52),
                den >= pow2(52),
        ;
    }
    assert(0 * den <= num) by (nonlinear_arith);
    assert(num < (most + 1) * den) by (nonlinear_arith)
        requires
            num <= most * den,
            den > 0,
    ;
    lemma_quotient_bounds(num, den, 0, most + 1);
    if e >= 972 {
        lemma_quotient_scales(ma, mb, s, top, e, quotient_at(ma, mb, s, e));
        lemma_pow2_monotonic(1, (e - top) as nat);
        assert(quotient_at(ma, mb, s, e) * pow2((e - top) as nat) >= pow2(52) * 2)
            by (nonlinear_arith)
            requires
                quotient_at(ma, mb, s, e) >= pow2(52),
                pow2((e - top) as nat) >= 2,
        ;
    }
    let en = scaled_num(ma, s, e);
    let ed = scaled_den(mb, s, e);
    lemma_scaled_den_positive(mb, s, e);
    let m = nearest_even(en, ed);
    if e == top {
        lemma_nearest_even_bound(en, ed, most);
    }
    assert(m <= quotient_at(ma, mb, s, e) + 1);
    assert((e + 1074) * pow2(52) + m < INFINITY_BITS) by (nonlinear_arith)
        requires
            -1074 <= e <= 971,
            e == 971 ==> m <= pow2(53) - 1,
            m <= pow2(53),
            pow2(52) == 0x10_0000_0000_0000,
            pow2(53) == 0x20_0000_0000_0000,
            INFINITY_BITS == 0x7ff0_0000_0000_0000,
    ;
    assert((e + 1074) * pow2(52) >= 0) by (nonlinear_arith)
        requires
            -1074 <= e,
    ;
}

/// The step of a lattice is finite where the distance between its ends is.
pub proof fn lemma_step_is_finite(start: Binary64, end: Binary64, steps: nat)
    requires
        sub_spec(end, start).is_finite_spec(),
        2 <= steps <= pow2(64),
    ensures
        step_between(start, end, steps as int).is_finite_spec(),
{
    lemma_from_int_at_least_one((steps - 1) as nat);
    lemma_div_stays_finite(sub_spec(end, start), from_int_spec(steps - 1));
}

/// The first point of a lattice equals its start, where the distance
/// between the ends is finite: it is the very same double, unless the start
/// is a zero, and then it is a zero.
pub proof fn lemma_lattice_first_is_start(start: Binary64, end: Binary64, steps: nat)
    requires
        sub_spec(end, start).is_finite_spec(),
        2 <= steps <= pow2(64),
    ensures
        ieee_eq_spec(lattice_point(start, step_between(start, end, steps as int), 0), start),
        !start.is_zero_spec() ==> lattice_point(start, step_between(start, end, steps as int), 0)
            == start,
{
    lemma_step_is_finite(start, end, steps);
    let other = Binary64::compose(!start.sign(), start.magnitude());
    assert(other.magnitude() == start.magnitude());
    assert(!start.is_nan_spec());
    lemma_lattice_starts_at_start(start, step_between(start, end, steps as int));
}

/// An exact lattice: where the ends of a lattice are multiples of one power
/// of two, of either sign and in either order, with factors below `2^53`,
/// and the distance between them divides evenly into the steps, every point
/// is exact. The step is the distance divided by the number of gaps, the
/// point of index `i` lies `i` steps from the start, and the last point is
/// the end: equal to it, and the same double unless the end is zero.
pub proof fn lemma_exact_lattice(
    start: Binary64,
    end: Binary64,
    first: int,
    last: int,
    x: int,
    steps: nat,
    i: nat,
)
    requires
        holds_signed(start, first, x),
        holds_signed(end, last, x),
        -1074 <= x <= 971,
        magnitude_of(first) < pow2(53),
        magnitude_of(last) < pow2(53),
        magnitude_of(last - first) < pow2(53),
        2 <= steps <= pow2(53),
        (last - first) % (steps - 1) == 0,
        i < steps,
    ensures
        holds_signed(
            step_between(start, end, steps as int),
            (last - first) / (steps - 1),
            x,
        ),
        holds_signed(
            lattice_point(start, step_between(start, end, steps as int), i as int),
            first + i * ((last - first) / (steps - 1)),
            x,
        ),
        i == steps - 1 ==> ieee_eq_spec(
            lattice_point(start, step_between(start, end, steps as int), i as int),
            end,
        ),
        i == steps - 1 && last != 0 ==> lattice_point(
            start,
            step_between(start, end, steps as int),
            i as int,
        ) == end,
{
    let span = last - first;
    let gaps = (steps - 1) as nat;
    let width = span / (gaps as int);
    vstd::arithmetic::div_mod::lemma_fundamental_div_mod(span, gaps as int);
    assert(span == width * gaps) by (nonlinear_arith)
        requires
            span == gaps * width + 0,
    ;
    // every point lies between the ends
    assert(magnitude_of(width) <= magnitude_of(span) && magnitude_of(width * i) <= magnitude_of(
        span,
    ) && magnitude_of(first + width * i) < pow2(53)) by (nonlinear_arith)
        requires
            span == width * gaps,
            span == last - first,
            gaps >= 1,
            0 <= i <= gaps,
            magnitude_of(first) < pow2(53),
            magnitude_of(last) < pow2(53),
            magnitude_of(first) == if first < 0 {
                -first
            } else {
                first
            },
            magnitude_of(last) == if last < 0 {
                -last
            } else {
                last
            },
            magnitude_of(span) == if span < 0 {
                -span
            } else {
                span
            },
            magnitude_of(width) == if width < 0 {
                -width
            } else {
                width
            },
            magnitude_of(width * i) == if width * i < 0 {
                -(width * i)
            } else {
                width * i
            },
            magnitude_of(first + width * i) == if first + width * i < 0 {
                -(first + width * i)
            } else {
                first + width * i
            },
    ;
    // the step
    lemma_signed_sub_holds(end, start, last, first, x);
    lemma_from_int_holds(gaps);
    lemma_signed_div_exact(sub_spec(end, start), from_int_spec(gaps as int), span, gaps, width, x);
    let step = step_between(start, end, steps as int);
    // the point
    lemma_from_int_holds(i);
    lemma_signed_mul_whole(step, from_int_spec(i as int), width, i, x);
    lemma_signed_add_holds(start, mul_spec(step, from_int_spec(i as int)), first, width * i, x);
    assert(width * i == i * width) by (nonlinear_arith);
    if i == steps - 1 {
        assert(first + width * i == last);
        lemma_signed_unique(lattice_point(start, step, i as int), end, last, x);
    }
}

/// Whether the fractional part of `x`, counted in nanoseconds, is exactly
/// the whole number `k`: the product of the fractional part and a thousand
/// million has the value `k`, with nothing to round.
pub open spec fn has_exact_nanoseconds(x: Binary64, k: nat) -> bool {
    let part = fract_spec(x);
    let giga = Binary64::from_bits(NANOS_PER_SEC);
    same_value(
        part.significand() * giga.significand(),
        1,
        part.exponent() + giga.exponent(),
        k,
        1,
        0,
    )
}

/// A fractional part below one has fewer than a thousand million
/// nanoseconds.
proof fn lemma_nanoseconds_below_second(fs: nat, fe: int, k: nat)
    requires
        fs * pow2(clip(fe + 52)) < pow2(52) * pow2(clip(-52 - fe)),
        fs * 0x1d_cd65_0000_0000 * pow2(clip(fe - 23)) == k * pow2(clip(23 - fe)),
    ensures
        k < 1_000_000_000,
{
    lemma_pow2_values();
    vstd::arithmetic::power2::lemma2_to64();
    let giga: nat = 0x1d_cd65_0000_0000;
    assert(giga == 1_000_000_000 * pow2(23));
    if fe >= 0 {
        // a double below one has no exponent from zero up
        lemma_pow2_monotonic(52, (fe + 52) as nat);
        assert(fs == 0) by (nonlinear_arith)
            requires
                fs * pow2((fe + 52) as nat) < pow2(52) * pow2(0),
                pow2(0) == 1,
                pow2((fe + 52) as nat) >= pow2(52),
                pow2(52) > 0,
        ;
        lemma_pow2_pos(clip(23 - fe));
        assert(k == 0) by (nonlinear_arith)
            requires
                fs == 0,
                fs * giga * pow2(clip(fe - 23)) == k * pow2(clip(23 - fe)),
                pow2(clip(23 - fe)) > 0,
        ;
    } else {
        let t = (-fe) as nat;
        lemma_pow2_pos(t);
        lemma_pow2_adds(23, t);
        assert(fs < pow2(t)) by {
            if t <= 52 {
                lemma_pow2_adds((52 - t) as nat, t);
                assert(fs < pow2(t)) by (nonlinear_arith)
                    requires
                        fs * pow2((52 - t) as nat) < pow2(52) * pow2(0),
                        pow2(0) == 1,
                        pow2(52) == pow2((52 - t) as nat) * pow2(t),
                        pow2((52 - t) as nat) > 0,
                ;
                lemma_pow2_pos((52 - t) as nat);
            } else {
                lemma_pow2_adds(52, (t - 52) as nat);
                assert(fs * pow2(0) == fs) by (nonlinear_arith)
                    requires
                        pow2(0) == 1,
                ;
            }
        }
        assert(k < 1_000_000_000) by (nonlinear_arith)
            requires
                fs * giga * pow2(0) == k * pow2(23 + t),
                pow2(0) == 1,
                giga == 1_000_000_000 * pow2(23),
                pow2(23 + t) == pow2(23) * pow2(t),
                fs < pow2(t),
                pow2(23) > 0,
                pow2(t) > 0,
        ;
    }
}

/// Round trip through the monotonic representation: a finite duration with
/// a clear sign, with whole seconds that 64 bits hold and a fractional part
/// of exactly `k` nanoseconds, converts to these seconds and nanoseconds,
/// and they convert back to the same double.
pub proof fn lemma_exact_nanoseconds_round_trip(x: Binary64, k: nat)
    requires
        x.is_finite_spec(),
        !x.sign(),
        whole_magnitude(x) <= u64::MAX,
        has_exact_nanoseconds(x, k),
    ensures
        k < 1_000_000_000,
        std_parts(x) == Some((whole_magnitude(x) as u64, k as u32)),
        seconds_of_parts(whole_magnitude(x) as u64, k as u32) == x,
{
    lemma_pow2_values();
    let giga = Binary64::from_bits(NANOS_PER_SEC);
    let one = Binary64::from_bits(ONE);
    let part = fract_spec(x);
    let fs = part.significand();
    let fe = part.exponent();
    assert(giga.significand() == 0x1d_cd65_0000_0000 && giga.exponent() == -23 && !giga.sign()
        && giga.is_finite_spec());
    assert(one.significand() == pow2(52) && one.exponent() == -52);
    lemma_fract_parts(x);
    assert(part.is_finite_spec());
    lemma_order_by_value(part, one);
    // the nanoseconds
    assert(fs * 0x1d_cd65_0000_0000 * pow2(clip(fe - 23)) == k * pow2(clip(23 - fe)))
        by (nonlinear_arith)
        requires
            (fs * 0x1d_cd65_0000_0000) * 1 * pow2(clip((fe + -23) - 0)) == k * 1 * pow2(
                clip(0 - (fe + -23)),
            ),
            clip((fe + -23) - 0) == clip(fe - 23),
            clip(0 - (fe + -23)) == clip(23 - fe),
    ;
    lemma_nanoseconds_below_second(fs, fe, k);
    let product = fs * giga.significand();
    lemma_ulp_exponent_exists(product, 1, fe - 23);
    lemma_round_same_value(product, 1, fe - 23, k, 1, 0, ulp_exponent(product, 1, fe - 23));
    let nanos = mul_spec(part, giga);
    assert(nanos == from_int_spec(k as int));
    lemma_from_int_holds(k);
    lemma_whole_magnitude(nanos, k);
    assert(saturating_whole(nanos, u32::MAX as nat) == k);
    assert(std_parts(x) == Some((whole_magnitude(x) as u64, k as u32)));
    // and back: k nanoseconds divided by a thousand million are the fractional part
    let count = from_int_spec(k as int);
    let mk = count.significand();
    let ek = count.exponent();
    assert(same_value(k, 1, 0, mk, 1, ek)) by {
        assert(mk * 1 * pow2(clip(ek - 0)) == k * 1 * pow2(clip(0 - ek)));
    }
    assert(same_value(product, 1, fe - 23, k, 1, 0));
    lemma_same_value_chain(product, fe - 23, k, 0, mk, ek);
    assert(same_value(fs, 1, fe, mk, giga.significand(), ek + 23)) by (nonlinear_arith)
        requires
            product == fs * giga.significand(),
            product * 1 * pow2(clip((fe - 23) - ek)) == mk * 1 * pow2(clip(ek - (fe - 23))),
            same_value(fs, 1, fe, mk, giga.significand(), ek + 23) == (fs * giga.significand()
                * pow2(clip(fe - (ek + 23))) == mk * 1 * pow2(clip((ek + 23) - fe))),
            clip(fe - (ek + 23)) == clip((fe - 23) - ek),
            clip((ek + 23) - fe) == clip(ek - (fe - 23)),
    ;
    lemma_magnitude_parts(part);
    lemma_round_exact(fs, fe, 0);
    assert(fs * pow2(0) == fs) by (nonlinear_arith)
        requires
            pow2(0) == 1,
    ;
    lemma_round_same_value(fs, 1, fe, mk, giga.significand(), ek + 23, fe);
    lemma_compose_parts(part);
    assert(div_spec(count, giga) == part);
}

/// The days of a decomposition are what truncating the quotient by a day
/// gives: for a whole count of seconds below `2^32` days, the whole part
/// of the count divided by the seconds of a day is the count of days.
pub proof fn lemma_days_are_truncated_quotient(x: Binary64, n: nat)
    requires
        holds_whole(x, n),
        n < pow2(32) * 86400,
    ensures
        decompose_spec(x).days == n / 86400,
        trunc_spec(div_spec(x, Binary64::from_bits(SECS_PER_DAY))) == from_int_spec(
            decompose_spec(x).days as int,
        ),
{
    lemma_pow2_values();
    vstd::arithmetic::power2::lemma2_to64();
    vstd::arithmetic::power2::lemma2_to64_rest();
    lemma_units_hold();
    lemma_compose_parts(x);
    lemma_whole_magnitude(x, n);
    vstd::arithmetic::div_mod::lemma_fundamental_div_mod(n as int, 86400);
    assert(n < pow2(36) * 86400);
    lemma_whole_div_trunc(x, Binary64::from_bits(SECS_PER_DAY), n, 86400);
}

} // verus!
