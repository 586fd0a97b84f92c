//! Rounding a ratio of integers, scaled by a power of two, to the nearest
//! binary64 magnitude, ties to the even significand.
use vstd::prelude::*;
use vstd::arithmetic::power2::*;
use crate::binary64::{HIDDEN_BIT, INFINITY_BITS};

verus! {

/// `i` where it is positive, else zero.
pub open spec fn clip(i: int) -> nat {
    if i < 0 {
        0
    } else {
        i as nat
    }
}

/// The numerator of `n / d * 2^x / 2^e` written as one fraction of integers.
pub open spec fn scaled_num(n: nat, x: int, e: int) -> nat {
    n * pow2(clip(x - e))
}

/// The denominator of `n / d * 2^x / 2^e` written as one fraction of integers.
pub open spec fn scaled_den(d: nat, x: int, e: int) -> nat {
    d * pow2(clip(e - x))
}

/// How many whole units of `2^e` the value `n / d * 2^x` holds.
pub open spec fn quotient_at(n: nat, d: nat, x: int, e: int) -> nat {
    scaled_num(n, x, e) / scaled_den(d, x, e)
}

/// Whether `2^e` is the unit in the last place of `n / d * 2^x`: the value
/// holds fewer than `2^53` such units, and at least `2^52` of them unless `e`
/// is already the smallest exponent of the format.
pub open spec fn is_ulp_exponent(n: nat, d: nat, x: int, e: int) -> bool {
    &&& e >= -1074
    &&& quotient_at(n, d, x, e) < pow2(53)
    &&& (e == -1074 || quotient_at(n, d, x, e) >= pow2(52))
}

/// The exponent of the unit in the last place of `n / d * 2^x`.
pub open spec fn ulp_exponent(n: nat, d: nat, x: int) -> int {
    choose|e: int| is_ulp_exponent(n, d, x, e)
}

/// `num / den` rounded to the nearest integer, a tie to the even one.
pub open spec fn nearest_even(num: nat, den: nat) -> nat {
    let q = num / den;
    let r = num % den;
    if 2 * r > den || (2 * r == den && q % 2 == 1) {
        q + 1
    } else {
        q
    }
}

/// The magnitude pattern of the double nearest to `n / d * 2^x`, ties to the
/// even significand, and infinity where that would pass the largest finite
/// double. `d` is positive.
pub open spec fn round_ratio(n: nat, d: nat, x: int) -> nat {
    let e = ulp_exponent(n, d, x);
    let m = nearest_even(scaled_num(n, x, e), scaled_den(d, x, e));
    let b = (e + 1074) * pow2(52) + m;
    if b >= INFINITY_BITS {
        INFINITY_BITS as nat
    } else {
        b as nat
    }
}

/// A larger exponent gives no smaller power of two.
pub proof fn lemma_pow2_monotonic(a: nat, b: nat)
    requires
        a <= b,
    ensures
        pow2(a) <= pow2(b),
{
    if a < b {
        lemma_pow2_strictly_increases(a, b);
    }
}

/// Products of no larger factors are no larger.
proof fn lemma_mul_le(a: nat, b: nat, c: nat, d: nat)
    by (nonlinear_arith)
    requires
        a <= b,
        c <= d,
    ensures
        a * c <= b * d,
{
}

/// A product with one smaller factor, and the other positive and no larger,
/// is smaller.
proof fn lemma_mul_lt_le(a: nat, b: nat, c: nat, d: nat)
    by (nonlinear_arith)
    requires
        a < b,
        c <= d,
        c > 0,
    ensures
        a * c < b * d,
{
}

/// Bounds on a fraction, cleared of the denominator, bound its whole part.
pub proof fn lemma_quotient_bounds(num: nat, den: nat, lo: nat, hi: nat)
    by (nonlinear_arith)
    requires
        den > 0,
        lo * den <= num,
        num < hi * den,
    ensures
        lo <= num / den < hi,
{
}

/// Bounds on the whole part of a fraction bound the numerator.
proof fn lemma_quotient_bounds_converse(num: nat, den: nat, lo: nat, hi: nat)
    by (nonlinear_arith)
    requires
        den > 0,
    ensures
        lo <= num / den ==> lo * den <= num,
        num / den < hi ==> num < hi * den,
{
}

/// An upper bound on the scaled fraction from the bit lengths of `n` and `d`.
proof fn lemma_scaled_upper(n: nat, d: nat, x: int, e: int, ln: nat, ld: nat, c: nat)
    requires
        n < pow2(ln),
        ld >= 1,
        d >= pow2((ld - 1) as nat),
        x - e + ln - ld + 1 <= c,
    ensures
        scaled_num(n, x, e) < pow2(c) * scaled_den(d, x, e),
{
    let s = clip(x - e);
    let t = clip(e - x);
    lemma_pow2_pos(s);
    lemma_pow2_pos(t);
    lemma_pow2_pos(c);
    // n * 2^s < 2^(ln + s) <= 2^(c + ld - 1 + t) <= 2^c * d * 2^t
    lemma_mul_lt_le(n, pow2(ln), pow2(s), pow2(s));
    lemma_pow2_adds(ln, s);
    lemma_pow2_monotonic(ln + s, (c + ld - 1 + t) as nat);
    lemma_pow2_adds(c, (ld - 1 + t) as nat);
    lemma_pow2_adds((ld - 1) as nat, t);
    lemma_mul_le(pow2((ld - 1) as nat), d, pow2(t), pow2(t));
    lemma_mul_le(pow2(c), pow2(c), pow2((ld - 1) as nat) * pow2(t), d * pow2(t));
}

/// A lower bound on the scaled fraction from the bit lengths of `n` and `d`.
proof fn lemma_scaled_lower(n: nat, d: nat, x: int, e: int, ln: nat, ld: nat, c: nat)
    requires
        ln >= 1,
        n >= pow2((ln - 1) as nat),
        d <= pow2(ld),
        c <= x - e + ln - 1 - ld,
    ensures
        scaled_num(n, x, e) >= pow2(c) * scaled_den(d, x, e),
{
    let s = clip(x - e);
    let t = clip(e - x);
    lemma_pow2_pos(s);
    lemma_pow2_pos(t);
    lemma_pow2_pos(c);
    // 2^c * d * 2^t <= 2^(c + ld + t) <= 2^(ln - 1 + s) <= n * 2^s
    lemma_mul_le(d, pow2(ld), pow2(t), pow2(t));
    lemma_mul_le(pow2(c), pow2(c), d * pow2(t), pow2(ld) * pow2(t));
    lemma_pow2_adds(ld, t);
    lemma_pow2_adds(c, ld + t);
    lemma_pow2_monotonic(c + ld + t, (ln - 1 + s) as nat);
    lemma_pow2_adds((ln - 1) as nat, s);
    lemma_mul_le(pow2((ln - 1) as nat), n, pow2(s), pow2(s));
}


/// The factors of an equation regrouped around `n` and `d`.
proof fn lemma_cross_products(n: nat, a: nat, d: nat, b: nat, c: nat, t: nat, g: nat)
    by (nonlinear_arith)
    requires
        a * b == c * t * g,
    ensures
        (n * a) * (d * b) == (n * c) * (d * t) * g,
{
}

/// The same value scaled by two exponents: the two fractions differ by the
/// power of two between the exponents.
proof fn lemma_scaled_cross(n: nat, d: nat, x: int, e1: int, e2: int)
    requires
        e1 <= e2,
    ensures
        scaled_num(n, x, e1) * scaled_den(d, x, e2) == scaled_num(n, x, e2) * scaled_den(
            d,
            x,
            e1,
        ) * pow2((e2 - e1) as nat),
{
    let a = clip(x - e1);
    let b = clip(e2 - x);
    let c = clip(x - e2);
    let t = clip(e1 - x);
    let g = (e2 - e1) as nat;
    assert(a + b == c + t + g);
    lemma_pow2_adds(a, b);
    lemma_pow2_adds(c, t);
    lemma_pow2_adds(c + t, g);
    lemma_cross_products(n, pow2(a), d, pow2(b), pow2(c), pow2(t), pow2(g));
}

/// A lower bound on a fraction carries over to the fraction `g` times as
/// large.
proof fn lemma_scale_down(n1: nat, d1: nat, n2: nat, d2: nat, g: nat, lo: nat)
    by (nonlinear_arith)
    requires
        d1 > 0,
        d2 > 0,
        n1 * d2 == n2 * d1 * g,
        lo * d2 <= n2,
    ensures
        lo * g * d1 <= n1,
{
    assert(lo * d2 * (d1 * g) <= n2 * (d1 * g));
    assert((lo * g * d1) * d2 <= n1 * d2);
}

/// An upper bound on a fraction carries over to the fraction a `g`-th as
/// large.
proof fn lemma_scale_up(n1: nat, d1: nat, n2: nat, d2: nat, g: nat, hi: nat)
    by (nonlinear_arith)
    requires
        d1 > 0,
        d2 > 0,
        g > 0,
        n1 * d2 == n2 * d1 * g,
        n1 < hi * g * d1,
    ensures
        n2 < hi * d2,
{
    assert(n2 * (d1 * g) < hi * d2 * (d1 * g));
}

/// The denominator of a scaled fraction is positive where `d` is.
pub proof fn lemma_scaled_den_positive(d: nat, x: int, e: int)
    requires
        d > 0,
    ensures
        scaled_den(d, x, e) > 0,
{
    lemma_pow2_pos(clip(e - x));
    lemma_mul_le(1, d, 1, pow2(clip(e - x)));
}

/// Raising the exponent by `g` divides the count of units by `2^g`, rounded
/// down: counts at the lower exponent bound those at the higher one.
pub proof fn lemma_quotient_scales(n: nat, d: nat, x: int, e1: int, e2: int, lo: nat)
    requires
        d > 0,
        e1 <= e2,
        quotient_at(n, d, x, e2) >= lo,
    ensures
        quotient_at(n, d, x, e1) >= lo * pow2((e2 - e1) as nat),
{
    let n1 = scaled_num(n, x, e1);
    let d1 = scaled_den(d, x, e1);
    let n2 = scaled_num(n, x, e2);
    let d2 = scaled_den(d, x, e2);
    let g = pow2((e2 - e1) as nat);
    lemma_scaled_den_positive(d, x, e1);
    lemma_scaled_den_positive(d, x, e2);
    lemma_scaled_cross(n, d, x, e1, e2);
    lemma_quotient_bounds_converse(n2, d2, lo, 0);
    lemma_scale_down(n1, d1, n2, d2, g, lo);
    assert(n1 < (n1 + 1) * d1) by (nonlinear_arith)
        requires
            d1 > 0,
    ;
    lemma_quotient_bounds(n1, d1, lo * g, n1 + 1);
}

/// At most one exponent is the unit in the last place of a value.
pub proof fn lemma_ulp_exponent_unique(n: nat, d: nat, x: int, e1: int, e2: int)
    requires
        d > 0,
        is_ulp_exponent(n, d, x, e1),
        is_ulp_exponent(n, d, x, e2),
    ensures
        e1 == e2,
{
    if e1 < e2 {
        lemma_quotient_scales(n, d, x, e1, e2, pow2(52));
        lemma_pow2_monotonic(1, (e2 - e1) as nat);
        lemma_pow2_adds(52, 1);
        lemma_mul_le(pow2(52), pow2(52), pow2(1), pow2((e2 - e1) as nat));
    } else if e2 < e1 {
        lemma_quotient_scales(n, d, x, e2, e1, pow2(52));
        lemma_pow2_monotonic(1, (e1 - e2) as nat);
        lemma_pow2_adds(52, 1);
        lemma_mul_le(pow2(52), pow2(52), pow2(1), pow2((e1 - e2) as nat));
    }
}

/// Once an exponent is known to be the unit in the last place, the rounded
/// pattern follows from the fraction at that exponent.
pub proof fn lemma_round_ratio_at(n: nat, d: nat, x: int, e: int)
    requires
        d > 0,
        is_ulp_exponent(n, d, x, e),
    ensures
        ulp_exponent(n, d, x) == e,
{
    lemma_ulp_exponent_unique(n, d, x, e, ulp_exponent(n, d, x));
}


/// A lower bound on a fraction carries over to the fraction a `g`-th as
/// large.
proof fn lemma_scale_lower_up(n1: nat, d1: nat, n2: nat, d2: nat, g: nat, lo: nat)
    by (nonlinear_arith)
    requires
        d1 > 0,
        d2 > 0,
        g > 0,
        n1 * d2 == n2 * d1 * g,
        lo * g * d1 <= n1,
    ensures
        lo * d2 <= n2,
{
    assert(lo * d2 * (d1 * g) <= n2 * (d1 * g));
}

/// The values of the powers of two that the code compares with.
pub proof fn lemma_pow2_values()
    ensures
        pow2(0) == 1,
        pow2(1) == 2,
        pow2(52) == 0x10_0000_0000_0000,
        pow2(53) == 0x20_0000_0000_0000,
        pow2(54) == 0x40_0000_0000_0000,
        pow2(63) == 0x8000_0000_0000_0000,
        pow2(64) == 0x1_0000_0000_0000_0000,
        pow2(120) == 0x100_0000_0000_0000_0000_0000_0000_0000,
        pow2(126) == 0x4000_0000_0000_0000_0000_0000_0000_0000,
        pow2(127) == 0x8000_0000_0000_0000_0000_0000_0000_0000,
{
    lemma2_to64();
    lemma2_to64_rest();
    lemma_pow2_adds(60, 60);
    lemma_pow2_adds(63, 63);
    lemma_pow2_adds(63, 64);
}

/// One shifted left by `k` places is two to the power `k`.
proof fn lemma_shl_one(k: u32)
    requires
        k <= 126,
    ensures
        (1u128 << k) == pow2(k as nat),
    decreases k,
{
    lemma_pow2_values();
    if k == 0 {
        assert((1u128 << 0u32) == 1u128) by (bit_vector);
    } else {
        let j = (k - 1) as u32;
        lemma_shl_one(j);
        lemma_pow2_unfold(k as nat);
        lemma_pow2_monotonic(j as nat, 126);
        assert((1u128 << k) == 2u128 * (1u128 << j)) by (bit_vector)
            requires
                0 < k <= 126,
                j == k - 1,
        ;
    }
}

/// Two to the power `k`.
pub(crate) fn pow2_u128(k: u32) -> (p: u128)
    requires
        k <= 126,
    ensures
        p == pow2(k as nat),
        p > 0,
{
    proof {
        lemma_shl_one(k);
        lemma_pow2_pos(k as nat);
    }
    1u128 << k
}

/// How many bits it takes to write `n`: zero for zero, and otherwise the
/// `len` with `2^(len - 1) <= n < 2^len`.
pub(crate) fn bit_length_u64(n: u64) -> (len: u32)
    ensures
        len <= 64,
        n < pow2(len as nat),
        len > 0 ==> n >= pow2((len - 1) as nat),
        len == 0 <==> n == 0,
{
    let zeros = n.leading_zeros();
    proof {
        lemma_pow2_values();
        vstd::std_specs::bits::axiom_u64_leading_zeros(n);
        if zeros < 64 {
            // the bit just below the leading zeros is set
            let shift = (63 - zeros) as u64;
            let top = n >> shift;
            assert(top >= 1) by (bit_vector)
                requires
                    top & 1u64 != 0u64,
            ;
            vstd::bits::lemma_u64_shr_is_div(n, shift);
            lemma_pow2_pos(shift as nat);
            assert(n >= pow2(shift as nat)) by (nonlinear_arith)
                requires
                    n as nat / pow2(shift as nat) >= 1,
                    pow2(shift as nat) > 0,
            ;
        }
        if zeros > 0 {
            // nothing is set above it
            let shift = (64 - zeros) as u64;
            vstd::bits::lemma_u64_shr_is_div(n, shift);
            lemma_pow2_pos(shift as nat);
            assert(n < pow2(shift as nat)) by (nonlinear_arith)
                requires
                    n as nat / pow2(shift as nat) == 0,
                    pow2(shift as nat) > 0,
            ;
        }
    }
    64 - zeros
}

/// How many bits it takes to write `n`: zero for zero, and otherwise the
/// `len` with `2^(len - 1) <= n < 2^len`.
pub(crate) fn bit_length(n: u128) -> (len: u32)
    ensures
        len <= 128,
        len < 128 ==> n < pow2(len as nat),
        len > 0 ==> n >= pow2((len - 1) as nat),
        len == 0 <==> n == 0,
{
    proof {
        lemma_pow2_values();
    }
    let high: u64 = (n / 0x1_0000_0000_0000_0000) as u64;
    if high == 0 {
        bit_length_u64(n as u64)
    } else {
        let len = bit_length_u64(high);
        proof {
            lemma_pow2_adds(64, len as nat);
            lemma_pow2_adds(64, (len - 1) as nat);
            assert(n < pow2(64) * pow2(len as nat)) by (nonlinear_arith)
                requires
                    n / 0x1_0000_0000_0000_0000 < pow2(len as nat),
                    pow2(64) == 0x1_0000_0000_0000_0000,
            ;
            assert(n >= pow2(64) * pow2((len - 1) as nat)) by (nonlinear_arith)
                requires
                    n / 0x1_0000_0000_0000_0000 >= pow2((len - 1) as nat),
                    pow2(64) == 0x1_0000_0000_0000_0000,
            ;
        }
        64 + len
    }
}

/// The scaled parts are as many bits longer as they were shifted.
proof fn lemma_scaled_fits(n: nat, d: nat, x: int, e: int, ln: nat, ld: nat)
    requires
        n < pow2(ln),
        d < pow2(ld),
        d > 0,
    ensures
        scaled_num(n, x, e) < pow2(ln + clip(x - e)),
        scaled_den(d, x, e) < pow2(ld + clip(e - x)),
{
    let s = clip(x - e);
    let t = clip(e - x);
    lemma_pow2_pos(s);
    lemma_pow2_pos(t);
    lemma_mul_lt_le(n, pow2(ln), pow2(s), pow2(s));
    lemma_mul_lt_le(d, pow2(ld), pow2(t), pow2(t));
    lemma_pow2_adds(ln, s);
    lemma_pow2_adds(ld, t);
}

/// What the two scaled parts are on either side of `x == e`.
proof fn lemma_scaled_cases(n: nat, d: nat, x: int, e: int)
    ensures
        x >= e ==> scaled_num(n, x, e) == n * pow2((x - e) as nat) && scaled_den(d, x, e) == d,
        x <= e ==> scaled_num(n, x, e) == n && scaled_den(d, x, e) == d * pow2((e - x) as nat),
{
    lemma_pow2_values();
    assert(n * 1 == n && d * 1 == d) by (nonlinear_arith);
}

/// The count of units of `2^e` in `n / d * 2^x`, what is left over, and the
/// denominator that the remainder is measured against.
fn divide_at(n: u128, d: u64, x: i32, e: i32) -> (res: (u128, u128, u128))
    requires
        d > 0,
        -5000 <= x <= 5000,
        -5000 <= e <= 5000,
        scaled_num(n as nat, x as int, e as int) < pow2(127),
        scaled_den(d as nat, x as int, e as int) < pow2(127),
    ensures
        res.2 == scaled_den(d as nat, x as int, e as int),
        res.0 == scaled_num(n as nat, x as int, e as int) / scaled_den(d as nat, x as int, e as int),
        res.1 == scaled_num(n as nat, x as int, e as int) % scaled_den(d as nat, x as int, e as int),
{
    proof {
        lemma_pow2_values();
        lemma_scaled_cases(n as nat, d as nat, x as int, e as int);
        lemma_scaled_den_positive(d as nat, x as int, e as int);
    }
    if x >= e {
        let s: i32 = x - e;
        if n == 0 {
            proof {
                assert(0 * pow2(s as nat) == 0) by (nonlinear_arith);
                assert(0nat / (d as nat) == 0 && 0nat % (d as nat) == 0) by (nonlinear_arith)
                    requires
                        d > 0,
                ;
            }
            return (0, 0, d as u128);
        }
        proof {
            // n >= 1, so the power of two alone is below 2^127
            if s > 126 {
                lemma_pow2_monotonic(127, s as nat);
            }
            lemma_mul_le(1, n as nat, pow2(s as nat), pow2(s as nat));
        }
        let p = pow2_u128(s as u32);
        let num: u128 = n * p;
        (num / (d as u128), num % (d as u128), d as u128)
    } else {
        let t: i32 = e - x;
        proof {
            if t > 126 {
                lemma_pow2_monotonic(127, t as nat);
            }
            lemma_mul_le(1, d as nat, pow2(t as nat), pow2(t as nat));
        }
        let p = pow2_u128(t as u32);
        let den: u128 = (d as u128) * p;
        (n / den, n % den, den)
    }
}

/// A value below half of the smallest subnormal rounds to zero.
proof fn lemma_round_tiny(n: nat, d: nat, x: int, ln: nat)
    requires
        d > 0,
        n < pow2(ln),
        -1074 - x > ln,
    ensures
        round_ratio(n, d, x) == 0,
{
    let e = -1074int;
    let t = clip(e - x);
    let num = scaled_num(n, x, e);
    let den = scaled_den(d, x, e);
    lemma_pow2_values();
    assert(num == n) by (nonlinear_arith)
        requires
            num == n * pow2(0),
            pow2(0) == 1,
    ;
    lemma_pow2_monotonic(ln + 1, t);
    lemma_pow2_unfold(ln + 1);
    lemma_mul_le(1, d, pow2(t), pow2(t));
    assert(2 * num < den);
    lemma_quotient_bounds(num, den, 0, 1);
    assert(num / den == 0);
    assert(num % den == num) by {
        vstd::arithmetic::div_mod::lemma_small_mod(num, den);
    }
    lemma_pow2_pos(53);
    assert(is_ulp_exponent(n, d, x, e));
    lemma_round_ratio_at(n, d, x, e);
    assert(nearest_even(num, den) == 0);
    assert((e + 1074) * pow2(52) == 0);
}

/// Zero rounds to zero.
pub proof fn lemma_round_zero(d: nat, x: int)
    requires
        d > 0,
    ensures
        round_ratio(0, d, x) == 0,
{
    let e = -1074int;
    let num = scaled_num(0, x, e);
    let den = scaled_den(d, x, e);
    lemma_pow2_values();
    lemma_scaled_den_positive(d, x, e);
    assert(num == 0) by (nonlinear_arith)
        requires
            num == 0 * pow2(clip(x - e)),
    ;
    lemma_quotient_bounds(num, den, 0, 1);
    vstd::arithmetic::div_mod::lemma_small_mod(num, den);
    lemma_pow2_pos(53);
    assert(is_ulp_exponent(0, d, x, e));
    lemma_round_ratio_at(0, d, x, e);
    assert(nearest_even(num, den) == 0);
    assert((e + 1074) * pow2(52) == 0);
}

/// What the bit lengths of `n` and `d` say of the count at the exponent
/// `e1` that they suggest: the scaled parts fit, the count is below `2^54`,
/// and it is at least `2^52` unless `e1` is the smallest exponent.
proof fn lemma_first_candidate(n: nat, d: nat, x: int, ln: nat, ld: nat, e1: int)
    requires
        n > 0,
        d > 0,
        ln >= 1,
        ld >= 1,
        pow2((ln - 1) as nat) <= n < pow2(ln),
        pow2((ld - 1) as nat) <= d < pow2(ld),
        ln + ld <= 121,
        ld <= 54,
        e1 == if ln - ld - 53 + x < -1074 { -1074 } else { ln - ld - 53 + x },
        e1 - x <= ln,
    ensures
        scaled_num(n, x, e1) < pow2(127),
        scaled_den(d, x, e1) < pow2(127),
        scaled_den(d, x, e1) > 0,
        quotient_at(n, d, x, e1) < pow2(54),
        e1 > -1074 ==> quotient_at(n, d, x, e1) >= pow2(52),
        e1 == -1074 && e1 != ln - ld - 53 + x ==> quotient_at(n, d, x, e1) < pow2(53),
{
    lemma_scaled_fits(n, d, x, e1, ln, ld);
    lemma_pow2_monotonic(ln + clip(x - e1), 127);
    lemma_pow2_monotonic(ld + clip(e1 - x), 127);
    lemma_scaled_den_positive(d, x, e1);
    let num = scaled_num(n, x, e1);
    let den = scaled_den(d, x, e1);
    lemma_scaled_upper(n, d, x, e1, ln, ld, 54);
    lemma_quotient_bounds(num, den, 0, pow2(54));
    if e1 == ln - ld - 53 + x {
        lemma_scaled_lower(n, d, x, e1, ln, ld, 52);
        lemma_quotient_bounds(num, den, pow2(52), pow2(54));
    } else {
        lemma_scaled_upper(n, d, x, e1, ln, ld, 53);
        lemma_quotient_bounds(num, den, 0, pow2(53));
    }
}

/// Where the count at `e1` has reached `2^53`, the count at `e1 + 1` lies
/// between `2^52` and `2^53`.
proof fn lemma_second_candidate(n: nat, d: nat, x: int, e1: int)
    requires
        d > 0,
        scaled_num(n, x, e1) < pow2(127),
        scaled_den(d, x, e1) < pow2(127),
        pow2(53) <= quotient_at(n, d, x, e1) < pow2(54),
    ensures
        scaled_num(n, x, e1 + 1) < pow2(127),
        scaled_den(d, x, e1 + 1) < pow2(127),
        scaled_den(d, x, e1 + 1) > 0,
        pow2(52) <= quotient_at(n, d, x, e1 + 1) < pow2(53),
{
    let e2 = e1 + 1;
    let n1 = scaled_num(n, x, e1);
    let d1 = scaled_den(d, x, e1);
    let n2 = scaled_num(n, x, e2);
    let d2 = scaled_den(d, x, e2);
    lemma_pow2_values();
    lemma_scaled_den_positive(d, x, e1);
    lemma_scaled_den_positive(d, x, e2);
    lemma_scaled_cross(n, d, x, e1, e2);
    lemma_quotient_bounds_converse(n1, d1, pow2(53), pow2(54));
    lemma_pow2_adds(52, 1);
    lemma_pow2_adds(53, 1);
    assert(pow2(53) * d1 == pow2(52) * pow2(1) * d1);
    assert(pow2(54) * d1 == pow2(53) * pow2(1) * d1);
    lemma_scale_lower_up(n1, d1, n2, d2, pow2(1), pow2(52));
    lemma_scale_up(n1, d1, n2, d2, pow2(1), pow2(53));
    lemma_quotient_bounds(n2, d2, pow2(52), pow2(53));
    // the parts at e1 + 1 are no larger than those at e1, or twice the denominator
    lemma_scaled_cases(n, d, x, e1);
    lemma_scaled_cases(n, d, x, e2);
    if x >= e2 {
        lemma_pow2_unfold((x - e1) as nat);
        assert(n * (2 * pow2((x - e2) as nat)) == 2 * (n * pow2((x - e2) as nat)))
            by (nonlinear_arith);
    } else {
        lemma_pow2_unfold((e2 - x) as nat);
        assert(d * (2 * pow2((e1 - x) as nat)) == 2 * (d * pow2((e1 - x) as nat)))
            by (nonlinear_arith);
        // n2 == n1 >= 2^53 * d1, so d2 == 2 * d1 is far below 2^127
        assert(pow2(53) * d1 >= 2 * d1) by (nonlinear_arith)
            requires
                pow2(53) >= 2,
        ;
    }
}

/// Putting the rounded significand `m` above the exponent `e` stays within
/// 63 bits.
proof fn lemma_pack_bounds(e: int, m: nat)
    requires
        -1074 <= e <= 972,
        m <= pow2(53),
    ensures
        0 <= (e + 1074) * pow2(52) + m <= 0x8000_0000_0000_0000,
        (e + 1074) * pow2(52) == (e + 1074) * 0x10_0000_0000_0000,
{
    lemma_pow2_values();
}

/// The magnitude pattern of the double nearest to `n / d * 2^x`, ties to the
/// even significand.
pub(crate) fn round_ratio_exec(n: u128, d: u64, x: i32) -> (r: u64)
    requires
        0 < d <= 0x20_0000_0000_0000,
        n < 0x100_0000_0000_0000_0000_0000_0000_0000,
        d == 1 || n < 0x1_0000_0000_0000_0000,
        -3000 <= x <= 3000,
    ensures
        r == round_ratio(n as nat, d as nat, x as int),
        r <= INFINITY_BITS,
{
    proof {
        lemma_pow2_values();
    }
    if n == 0 {
        proof {
            lemma_round_zero(d as nat, x as int);
        }
        return 0;
    }
    let ln = bit_length(n);
    let ld = bit_length(d as u128);
    proof {
        // the bit lengths stay within what the preconditions allow
        if ln > 120 {
            lemma_pow2_monotonic(120, (ln - 1) as nat);
        }
        if ld > 54 {
            lemma_pow2_monotonic(54, (ld - 1) as nat);
        }
        if d == 1 {
            if ld > 1 {
                lemma_pow2_monotonic(1, (ld - 1) as nat);
            }
        } else {
            if ln > 64 {
                lemma_pow2_monotonic(64, (ln - 1) as nat);
            }
        }
        assert(ln + ld <= 121);
    }
    let k0: i32 = ln as i32 - ld as i32 - 1 + x;
    let e1: i32 = if k0 - 52 < -1074 {
        -1074
    } else {
        k0 - 52
    };
    if e1 - x > ln as i32 {
        proof {
            lemma_round_tiny(n as nat, d as nat, x as int, ln as nat);
        }
        return 0;
    }
    proof {
        lemma_first_candidate(n as nat, d as nat, x as int, ln as nat, ld as nat, e1 as int);
    }
    let (q1, r1, den1) = divide_at(n, d, x, e1);
    let e: i32;
    let q: u128;
    let r: u128;
    let den: u128;
    if q1 >= 0x20_0000_0000_0000 {
        proof {
            lemma_second_candidate(n as nat, d as nat, x as int, e1 as int);
        }
        let (q2, r2, den2) = divide_at(n, d, x, e1 + 1);
        e = e1 + 1;
        q = q2;
        r = r2;
        den = den2;
    } else {
        e = e1;
        q = q1;
        r = r1;
        den = den1;
    }
    proof {
        assert(q == quotient_at(n as nat, d as nat, x as int, e as int));
        assert(is_ulp_exponent(n as nat, d as nat, x as int, e as int));
        lemma_round_ratio_at(n as nat, d as nat, x as int, e as int);
        vstd::arithmetic::div_mod::lemma_mod_division_less_than_divisor(
            scaled_num(n as nat, x as int, e as int) as int,
            den as int,
        );
    }
    let m: u128 = if r > den - r || (r == den - r && q % 2 == 1) {
        q + 1
    } else {
        q
    };
    assert(m == nearest_even(
        scaled_num(n as nat, x as int, e as int),
        scaled_den(d as nat, x as int, e as int),
    ));
    if e + 1074 >= 2047 {
        proof {
            assert((e + 1074) * pow2(52) >= 2047 * pow2(52)) by (nonlinear_arith)
                requires
                    e + 1074 >= 2047,
            ;
        }
        return INFINITY_BITS;
    }
    proof {
        lemma_pack_bounds(e as int, m as nat);
    }
    let b: u64 = ((e + 1074) as u64) * HIDDEN_BIT + (m as u64);
    if b >= INFINITY_BITS {
        INFINITY_BITS
    } else {
        b
    }
}

/// A value that a double holds exactly rounds to that double: `m * 2^e`,
/// written with `j` more binary places, gives the pattern of `m` above `e`.
pub proof fn lemma_round_exact(m: nat, e: int, j: nat)
    requires
        m < pow2(53),
        -1074 <= e <= 971,
        m >= pow2(52) || e == -1074,
    ensures
        is_ulp_exponent(m * pow2(j), 1, e - j, e),
        round_ratio(m * pow2(j), 1, e - j) == (e + 1074) * pow2(52) + m,
        (e + 1074) * pow2(52) + m < INFINITY_BITS,
{
    let n = m * pow2(j);
    let x = e - j;
    lemma_pow2_values();
    lemma_pow2_pos(j);
    lemma_scaled_cases(n, 1, x, e);
    assert(scaled_den(1, x, e) == pow2(j)) by (nonlinear_arith)
        requires
            scaled_den(1, x, e) == 1 * pow2(j),
    ;
    vstd::arithmetic::div_mod::lemma_fundamental_div_mod_converse(
        n as int,
        pow2(j) as int,
        m as int,
        0,
    );
    assert(is_ulp_exponent(n, 1, x, e));
    lemma_round_ratio_at(n, 1, x, e);
    assert(nearest_even(n, pow2(j)) == m);
    assert((e + 1074) * pow2(52) + m < INFINITY_BITS) by (nonlinear_arith)
        requires
            -1074 <= e <= 971,
            m < pow2(53),
            pow2(52) == 0x10_0000_0000_0000,
            pow2(53) == 0x20_0000_0000_0000,
            INFINITY_BITS == 0x7ff0_0000_0000_0000,
    ;
    assert((e + 1074) * pow2(52) + m >= 0) by (nonlinear_arith)
        requires
            -1074 <= e,
    ;
}

/// Two fractions of the same value have the same whole part and round to
/// the same integer.
pub proof fn lemma_equal_fractions(n1: nat, d1: nat, n2: nat, d2: nat)
    requires
        d1 > 0,
        d2 > 0,
        n1 * d2 == n2 * d1,
    ensures
        n1 / d1 == n2 / d2,
        nearest_even(n1, d1) == nearest_even(n2, d2),
{
    let q = n1 / d1;
    let r = n1 % d1;
    vstd::arithmetic::div_mod::lemma_fundamental_div_mod(n1 as int, d1 as int);
    vstd::arithmetic::div_mod::lemma_mod_division_less_than_divisor(n1 as int, d1 as int);
    let r2 = n2 - q * d2;
    assert(r2 * d1 == r * d2) by (nonlinear_arith)
        requires
            n1 == d1 * q + r,
            n1 * d2 == n2 * d1,
            r2 == n2 - q * d2,
    ;
    assert(0 <= r2 < d2) by (nonlinear_arith)
        requires
            r2 * d1 == r * d2,
            0 <= r < d1,
            d2 > 0,
    ;
    vstd::arithmetic::div_mod::lemma_fundamental_div_mod_converse(
        n2 as int,
        d2 as int,
        q as int,
        r2,
    );
    assert((2 * r > d1) == (2 * r2 > d2) && (2 * r == d1) == (2 * r2 == d2)) by (nonlinear_arith)
        requires
            r2 * d1 == r * d2,
            d1 > 0,
            d2 > 0,
    ;
}

/// Whether `n1 / d1 * 2^x1` and `n2 / d2 * 2^x2` are the same value.
pub open spec fn same_value(n1: nat, d1: nat, x1: int, n2: nat, d2: nat, x2: int) -> bool {
    n1 * d2 * pow2(clip(x1 - x2)) == n2 * d1 * pow2(clip(x2 - x1))
}

/// Two equations between products, multiplied and cleared of what they share.
proof fn lemma_cancel_cross(k: nat, l: nat, p: nat, q: nat, u: nat, v: nat)
    by (nonlinear_arith)
    requires
        k * p == l * q,
        u * q == v * p,
        p > 0,
        q > 0,
    ensures
        k * u == l * v,
{
    assert(k * u * q == k * (v * p));
    assert(k * v * p == l * q * v);
    assert((k * u) * q == (l * v) * q);
}

/// The factors of an equation regrouped into scaled parts.
proof fn lemma_regroup(n1: nat, a: nat, d2: nat, d: nat, n2: nat, c: nat, d1: nat, b: nat)
    by (nonlinear_arith)
    requires
        (n1 * d2) * (a * d) == (n2 * d1) * (c * b),
    ensures
        (n1 * a) * (d2 * d) == (n2 * c) * (d1 * b),
{
}

/// Two writings of the same value have the same fraction at every exponent.
pub proof fn lemma_same_value_scaled(n1: nat, d1: nat, x1: int, n2: nat, d2: nat, x2: int, e: int)
    requires
        same_value(n1, d1, x1, n2, d2, x2),
    ensures
        scaled_num(n1, x1, e) * scaled_den(d2, x2, e) == scaled_num(n2, x2, e) * scaled_den(
            d1,
            x1,
            e,
        ),
{
    let a = clip(x1 - e);
    let b = clip(e - x1);
    let c = clip(x2 - e);
    let d = clip(e - x2);
    let p = clip(x1 - x2);
    let q = clip(x2 - x1);
    assert(a + d + q == c + b + p);
    lemma_pow2_adds(a, d);
    lemma_pow2_adds(c, b);
    lemma_pow2_adds(a + d, q);
    lemma_pow2_adds(c + b, p);
    lemma_pow2_pos(p);
    lemma_pow2_pos(q);
    // (n1 d2) 2^p == (n2 d1) 2^q  and  2^(a+d) 2^q == 2^(c+b) 2^p
    lemma_cancel_cross(n1 * d2, n2 * d1, pow2(p), pow2(q), pow2(a + d), pow2(c + b));
    lemma_regroup(n1, pow2(a), d2, pow2(d), n2, pow2(c), d1, pow2(b));
}

/// Rounding depends on the value alone: two writings of the same value
/// round to the same double.
pub proof fn lemma_round_same_value(n1: nat, d1: nat, x1: int, n2: nat, d2: nat, x2: int, e: int)
    requires
        d1 > 0,
        d2 > 0,
        same_value(n1, d1, x1, n2, d2, x2),
        is_ulp_exponent(n1, d1, x1, e),
    ensures
        is_ulp_exponent(n2, d2, x2, e),
        round_ratio(n1, d1, x1) == round_ratio(n2, d2, x2),
{
    lemma_same_value_scaled(n1, d1, x1, n2, d2, x2, e);
    lemma_scaled_den_positive(d1, x1, e);
    lemma_scaled_den_positive(d2, x2, e);
    lemma_equal_fractions(
        scaled_num(n1, x1, e),
        scaled_den(d1, x1, e),
        scaled_num(n2, x2, e),
        scaled_den(d2, x2, e),
    );
    lemma_round_ratio_at(n1, d1, x1, e);
    lemma_round_ratio_at(n2, d2, x2, e);
}

/// Where the count at one exponent has reached twice `lo`, the count at the
/// next exponent has reached `lo`, and is at most half as large.
proof fn lemma_quotient_halves(n: nat, d: nat, x: int, e: int, lo: nat)
    requires
        d > 0,
        quotient_at(n, d, x, e) >= 2 * lo,
    ensures
        quotient_at(n, d, x, e + 1) >= lo,
        2 * quotient_at(n, d, x, e + 1) <= quotient_at(n, d, x, e),
{
    let n1 = scaled_num(n, x, e);
    let d1 = scaled_den(d, x, e);
    let n2 = scaled_num(n, x, e + 1);
    let d2 = scaled_den(d, x, e + 1);
    lemma_pow2_values();
    lemma_scaled_den_positive(d, x, e);
    lemma_scaled_den_positive(d, x, e + 1);
    lemma_scaled_cross(n, d, x, e, e + 1);
    lemma_quotient_bounds_converse(n1, d1, 2 * lo, 0);
    assert(lo * pow2(1) * d1 == 2 * lo * d1) by (nonlinear_arith)
        requires
            pow2(1) == 2,
    ;
    lemma_scale_lower_up(n1, d1, n2, d2, pow2(1), lo);
    assert(n2 < (n2 + 1) * d2) by (nonlinear_arith)
        requires
            d2 > 0,
    ;
    lemma_quotient_bounds(n2, d2, lo, n2 + 1);
    let q2 = quotient_at(n, d, x, e + 1);
    lemma_quotient_scales(n, d, x, e, e + 1, q2);
    assert(q2 * pow2(1) == 2 * q2) by (nonlinear_arith)
        requires
            pow2(1) == 2,
    ;
}

/// From an exponent whose count is not too small, an exponent can be
/// reached that is the unit in the last place.
proof fn lemma_ulp_exponent_from(n: nat, d: nat, x: int, e: int) -> (r: int)
    requires
        d > 0,
        e >= -1074,
        e == -1074 || quotient_at(n, d, x, e) >= pow2(52),
    ensures
        is_ulp_exponent(n, d, x, r),
    decreases quotient_at(n, d, x, e),
{
    lemma_pow2_values();
    if quotient_at(n, d, x, e) < pow2(53) {
        e
    } else {
        lemma_quotient_halves(n, d, x, e, pow2(52));
        lemma_ulp_exponent_from(n, d, x, e + 1)
    }
}

/// Every value has a unit in the last place.
pub proof fn lemma_ulp_exponent_exists(n: nat, d: nat, x: int)
    requires
        d > 0,
    ensures
        is_ulp_exponent(n, d, x, ulp_exponent(n, d, x)),
{
    let e = lemma_ulp_exponent_from(n, d, x, -1074);
    lemma_round_ratio_at(n, d, x, e);
}

/// A rounded magnitude is at most the pattern of infinity.
pub proof fn lemma_round_ratio_bound(n: nat, d: nat, x: int)
    requires
        d > 0,
    ensures
        round_ratio(n, d, x) <= INFINITY_BITS,
{
    lemma_ulp_exponent_exists(n, d, x);
    let e = ulp_exponent(n, d, x);
    assert((e + 1074) * pow2(52) >= 0) by (nonlinear_arith)
        requires
            e >= -1074,
    ;
}

/// What `nearest_even` names: of all integers, the result is nearest to
/// the fraction `num / den`, and where two integers are equally near, it is
/// the even one.
pub proof fn lemma_nearest_even_is_nearest(num: nat, den: nat, k: int)
    requires
        den > 0,
    ensures
        ({
            let m = nearest_even(num, den) as int;
            let off = if m * den >= num {
                m * den - num
            } else {
                num - m * den
            };
            let other = if k * den >= num {
                k * den - num
            } else {
                num - k * den
            };
            &&& 2 * off <= den
            &&& off <= other
            &&& (off == other && k != m) ==> m % 2 == 0
        }),
{
    let q = (num / den) as int;
    let r = (num % den) as int;
    vstd::arithmetic::div_mod::lemma_fundamental_div_mod(num as int, den as int);
    vstd::arithmetic::div_mod::lemma_mod_division_less_than_divisor(num as int, den as int);
    let m = nearest_even(num, den) as int;
    assert(num == q * den + r) by (nonlinear_arith)
        requires
            num == den * q + r,
    ;
    assert(m * den == q * den + (m - q) * den) by (nonlinear_arith);
    assert(k * den == q * den + (k - q) * den) by (nonlinear_arith);
    assert((m - q) * den == if m == q {
        0int
    } else {
        den as int
    }) by (nonlinear_arith)
        requires
            m == q || m == q + 1,
    ;
    if k <= q {
        assert((k - q) * den <= 0) by (nonlinear_arith)
            requires
                k <= q,
                den > 0,
        ;
        if k < q {
            assert((k - q) * den <= -den) by (nonlinear_arith)
                requires
                    k < q,
                    den > 0,
            ;
        }
    } else {
        assert((k - q) * den >= den) by (nonlinear_arith)
            requires
                k >= q + 1,
                den > 0,
        ;
        if k > q + 1 {
            assert((k - q) * den >= 2 * den) by (nonlinear_arith)
                requires
                    k >= q + 2,
                    den > 0,
            ;
        }
    }
}

} // verus!
