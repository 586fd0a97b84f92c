//! Doubles of a known exact value: where the operands of an operation are
//! whole numbers, or whole multiples of one power of two, the operation
//! rounds the exact result, and is exact where a double holds that result.
use vstd::prelude::*;
use vstd::arithmetic::power2::{pow2, lemma_pow2_adds, lemma_pow2_pos};
use crate::arithmetic::{
    add_spec, div_spec, lemma_magnitude_parts, magnitude_of, mul_spec, signed, sub_spec,
    sum_of_parts,
};
use crate::binary64::{Binary64, INFINITY_BITS};
use crate::convert::{from_int_spec, trunc_spec, whole_magnitude};
use crate::rounding::{
    clip, is_ulp_exponent, lemma_pow2_monotonic, lemma_pow2_values, lemma_quotient_bounds,
    lemma_quotient_scales, lemma_round_exact, lemma_round_ratio_bound, lemma_round_same_value,
    lemma_round_zero, lemma_ulp_exponent_exists, nearest_even, quotient_at, round_ratio,
    same_value, scaled_den, scaled_num, ulp_exponent,
};

verus! {

/// The double is finite, has a clear sign and is exactly `n * 2^x`.
pub open spec fn holds_value(a: Binary64, n: nat, x: int) -> bool {
    &&& a.is_finite_spec()
    &&& !a.sign()
    &&& same_value(a.significand(), 1, a.exponent(), n, 1, x)
}

/// The double is finite, has a clear sign and is exactly the whole number
/// `v`.
pub open spec fn holds_whole(a: Binary64, v: nat) -> bool {
    holds_value(a, v, 0)
}

/// The double with a clear sign that is nearest to `n * 2^x`.
pub open spec fn nearest(n: nat, x: int) -> Binary64 {
    Binary64::compose(false, round_ratio(n, 1, x))
}

/// What `holds_value` says of the significand `m` and the exponent `e`.
proof fn lemma_value_relation(m: nat, e: int, v: nat, x: int)
    ensures
        same_value(m, 1, e, v, 1, x) <==> m * pow2(clip(e - x)) == v * pow2(clip(x - e)),
{
    assert(m * 1 * pow2(clip(e - x)) == m * pow2(clip(e - x))) by (nonlinear_arith);
    assert(v * 1 * pow2(clip(x - e)) == v * pow2(clip(x - e))) by (nonlinear_arith);
}

/// What `holds_whole` says of the significand `m` and the exponent `e`.
proof fn lemma_whole_relation(m: nat, e: int, v: nat)
    ensures
        same_value(m, 1, e, v, 1, 0) <==> m * pow2(clip(e)) == v * pow2(clip(-e)),
{
    lemma_value_relation(m, e, v, 0);
}

/// The significand and the exponent of the double whose pattern is the
/// significand `m` above the exponent `e`. A significand that has been
/// rounded up to `2^53` stands one exponent higher.
pub proof fn lemma_decode(e: int, m: nat)
    requires
        -1074 <= e <= 971,
        m <= pow2(53),
        m >= pow2(52) || e == -1074,
        (e + 1074) * pow2(52) + m < INFINITY_BITS,
    ensures
        ({
            let y = Binary64::compose(false, ((e + 1074) * pow2(52) + m) as nat);
            &&& y.is_finite_spec()
            &&& !y.sign()
            &&& y.magnitude() == (e + 1074) * pow2(52) + m
            &&& m < pow2(53) ==> y.significand() == m && y.exponent() == e
            &&& m == pow2(53) ==> y.significand() == pow2(52) && y.exponent() == e + 1
        }),
{
    lemma_pow2_values();
}

/// A positive factor on both sides of an equation can be left out.
proof fn lemma_cancel_power(a: nat, b: nat, p: nat, q: nat, c: nat)
    by (nonlinear_arith)
    requires
        a * (p * c) == b * (q * c),
        c > 0,
    ensures
        a * p == b * q,
{
    assert((a * p) * c == (b * q) * c);
}

/// The product of two equations, with the factors regrouped.
proof fn lemma_product_of_relations(a: nat, p: nat, u: nat, q: nat, b: nat, r: nat, v: nat, s: nat)
    requires
        a * p == u * q,
        b * r == v * s,
    ensures
        (a * b) * (p * r) == (u * v) * (q * s),
{
    assert((a * b) * (p * r) == (a * p) * (b * r)) by (nonlinear_arith);
    assert((u * v) * (q * s) == (u * q) * (v * s)) by (nonlinear_arith);
}

/// A double of the value `n * 2^x` is the double nearest to that value.
pub proof fn lemma_value_is_nearest(a: Binary64, n: nat, x: int)
    requires
        holds_value(a, n, x),
    ensures
        a == nearest(n, x),
{
    lemma_pow2_values();
    lemma_magnitude_parts(a);
    let m = a.significand();
    let e = a.exponent();
    lemma_round_exact(m, e, 0);
    assert(m * pow2(0) == m) by (nonlinear_arith)
        requires
            pow2(0) == 1,
    ;
    lemma_round_same_value(m, 1, e, n, 1, x, e);
}

/// A double that is exactly a whole number is the double nearest to that
/// number: what the conversion from the integer gives.
pub proof fn lemma_whole_is_from_int(a: Binary64, v: nat)
    requires
        holds_whole(a, v),
    ensures
        a == from_int_spec(v as int),
{
    lemma_value_is_nearest(a, v, 0);
}

/// A multiple of a power of two with a factor below `2^53` is a double:
/// rounding it changes nothing.
pub proof fn lemma_nearest_holds(n: nat, x: int)
    requires
        n < pow2(53),
        -1074 <= x <= 971,
    ensures
        holds_value(nearest(n, x), n, x),
{
    lemma_pow2_values();
    lemma_ulp_exponent_exists(n, 1, x);
    let e = ulp_exponent(n, 1, x);
    let q = quotient_at(n, 1, x, e);
    if e >= x + 1 {
        // the count of units of 2^e in the value is then below 2^52
        let g = (e - x) as nat;
        lemma_pow2_pos(g);
        assert(scaled_num(n, x, e) == n) by (nonlinear_arith)
            requires
                scaled_num(n, x, e) == n * pow2(0),
                pow2(0) == 1,
        ;
        assert(scaled_den(1, x, e) == pow2(g)) by (nonlinear_arith)
            requires
                scaled_den(1, x, e) == 1 * pow2(g),
        ;
        lemma_pow2_monotonic(1, g);
        assert(n / pow2(g) < pow2(52)) by (nonlinear_arith)
            requires
                n < 2 * pow2(52),
                pow2(g) >= 2,
        ;
    }
    let num = scaled_num(n, x, e);
    assert(scaled_den(1, x, e) == 1) by (nonlinear_arith)
        requires
            scaled_den(1, x, e) == 1 * pow2(0),
            pow2(0) == 1,
    ;
    assert(num / 1 == num && num % 1 == 0);
    assert(nearest_even(num, 1) == num);
    assert(q == num);
    assert((e + 1074) * pow2(52) + num < INFINITY_BITS) by (nonlinear_arith)
        requires
            -1074 <= e <= 971,
            num < pow2(53),
            pow2(52) == 0x10_0000_0000_0000,
            pow2(53) == 0x20_0000_0000_0000,
            INFINITY_BITS == 0x7ff0_0000_0000_0000,
    ;
    assert((e + 1074) * pow2(52) >= 0) by (nonlinear_arith)
        requires
            -1074 <= e,
    ;
    lemma_decode(e, num);
    lemma_value_relation(num, e, n, x);
    assert(n * pow2(clip(x - e)) == num);
    assert(num * pow2(clip(e - x)) == num) by (nonlinear_arith)
        requires
            pow2(clip(e - x)) == 1,
    ;
}

/// The conversion from an integer below `2^53` is exact.
pub proof fn lemma_from_int_holds(i: nat)
    requires
        i < pow2(53),
    ensures
        holds_whole(from_int_spec(i as int), i),
{
    lemma_nearest_holds(i, 0);
}

/// The product of two whole numbers is the double nearest to their exact
/// product.
pub proof fn lemma_whole_mul(a: Binary64, b: Binary64, va: nat, vb: nat)
    requires
        holds_whole(a, va),
        holds_whole(b, vb),
    ensures
        mul_spec(a, b) == from_int_spec((va * vb) as int),
{
    let ma = a.significand();
    let ea = a.exponent();
    let mb = b.significand();
    let eb = b.exponent();
    lemma_whole_relation(ma, ea, va);
    lemma_whole_relation(mb, eb, vb);
    lemma_whole_relation(ma * mb, ea + eb, va * vb);
    let s = ea + eb;
    let c = (clip(ea) + clip(eb) - clip(s)) as nat;
    assert(clip(-ea) + clip(-eb) == clip(-s) + c);
    lemma_pow2_adds(clip(ea), clip(eb));
    lemma_pow2_adds(clip(-ea), clip(-eb));
    lemma_pow2_adds(clip(s), c);
    lemma_pow2_adds(clip(-s), c);
    lemma_pow2_pos(c);
    lemma_product_of_relations(
        ma,
        pow2(clip(ea)),
        va,
        pow2(clip(-ea)),
        mb,
        pow2(clip(eb)),
        vb,
        pow2(clip(-eb)),
    );
    lemma_cancel_power(ma * mb, va * vb, pow2(clip(s)), pow2(clip(-s)), pow2(c));
    lemma_ulp_exponent_exists(ma * mb, 1, s);
    lemma_round_same_value(ma * mb, 1, s, va * vb, 1, 0, ulp_exponent(ma * mb, 1, s));
}

/// Two multiples of `2^x` brought to the exponent of the one with the
/// smaller exponent: their sum and their difference there are the sum and
/// the difference of the factors, and they stand in the same order.
proof fn lemma_aligned(mh: nat, eh: int, vh: nat, ml: nat, el: int, vl: nat, x: int)
    requires
        eh >= el,
        same_value(mh, 1, eh, vh, 1, x),
        same_value(ml, 1, el, vl, 1, x),
    ensures
        ({
            let big = mh * pow2((eh - el) as nat);
            &&& same_value(big + ml, 1, el, vh + vl, 1, x)
            &&& vh >= vl <==> big >= ml
            &&& vl >= vh <==> ml >= big
            &&& vh >= vl ==> same_value((big - ml) as nat, 1, el, (vh - vl) as nat, 1, x)
            &&& vl >= vh ==> same_value((ml - big) as nat, 1, el, (vl - vh) as nat, 1, x)
        }),
{
    let g = (eh - el) as nat;
    let big = mh * pow2(g);
    lemma_value_relation(mh, eh, vh, x);
    lemma_value_relation(ml, el, vl, x);
    lemma_value_relation(big + ml, el, vh + vl, x);
    let p = pow2(clip(el - x));
    let q = pow2(clip(x - el));
    let c = pow2(clip(x - eh));
    lemma_pow2_pos(clip(el - x));
    lemma_pow2_pos(clip(x - el));
    lemma_pow2_pos(clip(x - eh));
    // big * 2^clip(el - x) == vh * 2^clip(x - el)
    assert(g + clip(el - x) + clip(x - eh) == clip(eh - x) + clip(x - el));
    lemma_pow2_adds(g, clip(el - x));
    lemma_pow2_adds(g + clip(el - x), clip(x - eh));
    lemma_pow2_adds(clip(eh - x), clip(x - el));
    assert(big * (p * c) == vh * (q * c)) by (nonlinear_arith)
        requires
            big == mh * pow2(g),
            mh * pow2(clip(eh - x)) == vh * c,
            pow2(g) * p * c == pow2(clip(eh - x)) * q,
    ;
    lemma_cancel_power(big, vh, p, q, c);
    assert((big + ml) * p == (vh + vl) * q) by (nonlinear_arith)
        requires
            big * p == vh * q,
            ml * p == vl * q,
    ;
    assert((vh >= vl) == (big >= ml)) by (nonlinear_arith)
        requires
            big * p == vh * q,
            ml * p == vl * q,
            p > 0,
            q > 0,
    ;
    assert((vl >= vh) == (ml >= big)) by (nonlinear_arith)
        requires
            big * p == vh * q,
            ml * p == vl * q,
            p > 0,
            q > 0,
    ;
    if vh >= vl {
        lemma_value_relation((big - ml) as nat, el, (vh - vl) as nat, x);
        assert((big - ml) * p == (vh - vl) * q) by (nonlinear_arith)
            requires
                big * p == vh * q,
                ml * p == vl * q,
        ;
    }
    if vl >= vh {
        lemma_value_relation((ml - big) as nat, el, (vl - vh) as nat, x);
        assert((ml - big) * p == (vl - vh) * q) by (nonlinear_arith)
            requires
                big * p == vh * q,
                ml * p == vl * q,
        ;
    }
}

/// What a value relation says of a factor that is zero.
proof fn lemma_value_zero(m: nat, e: int, v: nat, x: int)
    requires
        same_value(m, 1, e, v, 1, x),
    ensures
        m == 0 <==> v == 0,
{
    lemma_value_relation(m, e, v, x);
    lemma_pow2_pos(clip(e - x));
    lemma_pow2_pos(clip(x - e));
    assert((m == 0) == (v == 0)) by (nonlinear_arith)
        requires
            m * pow2(clip(e - x)) == v * pow2(clip(x - e)),
            pow2(clip(e - x)) > 0,
            pow2(clip(x - e)) > 0,
    ;
}

/// What a value relation says of a whole number that is zero.
proof fn lemma_whole_zero(m: nat, e: int, v: nat)
    requires
        same_value(m, 1, e, v, 1, 0),
    ensures
        m == 0 <==> v == 0,
{
    lemma_value_zero(m, e, v, 0);
}

/// Rounding the aligned sum is rounding the value.
proof fn lemma_round_aligned(total: nat, el: int, v: nat, x: int)
    requires
        same_value(total, 1, el, v, 1, x),
    ensures
        nearest(total, el) == nearest(v, x),
        round_ratio(total, 1, el) == round_ratio(v, 1, x),
{
    lemma_ulp_exponent_exists(total, 1, el);
    lemma_round_same_value(total, 1, el, v, 1, x, ulp_exponent(total, 1, el));
}

/// The sum of two multiples of `2^x` is the double nearest to their exact
/// sum.
pub proof fn lemma_value_add(a: Binary64, b: Binary64, na: nat, nb: nat, x: int)
    requires
        holds_value(a, na, x),
        holds_value(b, nb, x),
    ensures
        add_spec(a, b) == nearest(na + nb, x),
{
    lemma_pow2_values();
    lemma_round_zero(1, x);
    let ma = a.significand();
    let ea = a.exponent();
    let mb = b.significand();
    let eb = b.exponent();
    if ea >= eb {
        let g = (ea - eb) as nat;
        let big = ma * pow2(g);
        lemma_aligned(ma, ea, na, mb, eb, nb, x);
        let total = signed(false, ma) * pow2(g) + signed(false, mb);
        assert(total == big + mb);
        lemma_value_zero(big + mb, eb, na + nb, x);
        lemma_round_aligned(big + mb, eb, na + nb, x);
    } else {
        let g = (eb - ea) as nat;
        let big = mb * pow2(g);
        lemma_aligned(mb, eb, nb, ma, ea, na, x);
        let total = signed(false, mb) * pow2(g) + signed(false, ma);
        assert(total == big + ma);
        lemma_value_zero(big + ma, ea, nb + na, x);
        lemma_round_aligned(big + ma, ea, nb + na, x);
    }
}

/// The difference of two multiples of `2^x`, the larger first, is the
/// double nearest to their exact difference.
pub proof fn lemma_value_sub(a: Binary64, b: Binary64, na: nat, nb: nat, x: int)
    requires
        holds_value(a, na, x),
        holds_value(b, nb, x),
        na >= nb,
    ensures
        sub_spec(a, b) == nearest((na - nb) as nat, x),
{
    lemma_pow2_values();
    lemma_round_zero(1, x);
    let ma = a.significand();
    let ea = a.exponent();
    let mb = b.significand();
    let eb = b.exponent();
    let nb_double = Binary64::compose(true, b.magnitude());
    assert(nb_double.sign() && nb_double.magnitude() == b.magnitude());
    assert(nb_double.significand() == mb && nb_double.exponent() == eb
        && nb_double.is_finite_spec());
    if ea >= eb {
        let g = (ea - eb) as nat;
        let big = ma * pow2(g);
        lemma_aligned(ma, ea, na, mb, eb, nb, x);
        let total = signed(false, ma) * pow2(g) + signed(true, mb);
        assert(total == big - mb);
        lemma_value_zero((big - mb) as nat, eb, (na - nb) as nat, x);
        lemma_round_aligned((big - mb) as nat, eb, (na - nb) as nat, x);
        assert(sub_spec(a, b) == sum_of_parts(false, ma, ea, true, mb, eb));
    } else {
        let g = (eb - ea) as nat;
        let big = mb * pow2(g);
        lemma_aligned(mb, eb, nb, ma, ea, na, x);
        let total = signed(true, mb) * pow2(g) + signed(false, ma);
        assert(total == ma - big) by (nonlinear_arith)
            requires
                total == signed(true, mb) * pow2(g) + signed(false, ma),
                signed(true, mb) == -(mb as int),
                signed(false, ma) == ma as int,
                big == mb * pow2(g),
        ;
        lemma_value_zero((ma - big) as nat, ea, (na - nb) as nat, x);
        lemma_round_aligned((ma - big) as nat, ea, (na - nb) as nat, x);
        assert(sub_spec(a, b) == sum_of_parts(true, mb, eb, false, ma, ea));
    }
}

/// The sum of two whole numbers is the double nearest to their exact sum.
pub proof fn lemma_whole_add(a: Binary64, b: Binary64, va: nat, vb: nat)
    requires
        holds_whole(a, va),
        holds_whole(b, vb),
    ensures
        add_spec(a, b) == from_int_spec((va + vb) as int),
{
    lemma_value_add(a, b, va, vb, 0);
}

/// The difference of two whole numbers, the larger first, is the double
/// nearest to their exact difference.
pub proof fn lemma_whole_sub(a: Binary64, b: Binary64, va: nat, vb: nat)
    requires
        holds_whole(a, va),
        holds_whole(b, vb),
        va >= vb,
    ensures
        sub_spec(a, b) == from_int_spec((va - vb) as int),
{
    lemma_value_sub(a, b, va, vb, 0);
}

/// The quotient of two whole numbers, as a value, is the quotient of the
/// doubles that hold them.
proof fn lemma_whole_quotient_value(ma: nat, ea: int, n: nat, mk: nat, ek: int, k: nat)
    requires
        same_value(ma, 1, ea, n, 1, 0),
        same_value(mk, 1, ek, k, 1, 0),
    ensures
        same_value(n, k, 0, ma, mk, ea - ek),
{
    lemma_whole_relation(ma, ea, n);
    lemma_whole_relation(mk, ek, k);
    let s = ea - ek;
    // (ma 2^clip(ea)) (k 2^clip(-ek)) == (n 2^clip(-ea)) (mk 2^clip(ek))
    lemma_product_of_relations(
        ma,
        pow2(clip(ea)),
        n,
        pow2(clip(-ea)),
        k,
        pow2(clip(-ek)),
        mk,
        pow2(clip(ek)),
    );
    let c = (clip(ea) + clip(-ek) - clip(s)) as nat;
    assert(clip(-ea) + clip(ek) == clip(-s) + c);
    lemma_pow2_adds(clip(ea), clip(-ek));
    lemma_pow2_adds(clip(-ea), clip(ek));
    lemma_pow2_adds(clip(s), c);
    lemma_pow2_adds(clip(-s), c);
    lemma_pow2_pos(c);
    lemma_cancel_power(ma * k, n * mk, pow2(clip(s)), pow2(clip(-s)), pow2(c));
    assert(n * mk * pow2(clip(0 - s)) == ma * k * pow2(clip(s - 0)));
}

/// A quotient below `2^36` has its last place at `2^-17` or below.
proof fn lemma_quotient_ulp_bound(n: nat, k: nat)
    requires
        k > 0,
        n < pow2(36) * k,
    ensures
        is_ulp_exponent(n, k, 0, ulp_exponent(n, k, 0)),
        ulp_exponent(n, k, 0) <= -17,
{
    lemma_pow2_values();
    lemma_ulp_exponent_exists(n, k, 0);
    let e = ulp_exponent(n, k, 0);
    if e >= -16 {
        // the count of units of 2^-16 is below 2^52, and that of larger units no more
        vstd::arithmetic::power2::lemma2_to64();
        lemma_pow2_adds(36, 16);
        assert(scaled_num(n, 0, -16) == n * pow2(16));
        assert(scaled_den(k, 0, -16) == k) by (nonlinear_arith)
            requires
                scaled_den(k, 0, -16) == k * pow2(0),
                pow2(0) == 1,
        ;
        assert(n * pow2(16) < pow2(52) * k) by (nonlinear_arith)
            requires
                n < pow2(36) * k,
                pow2(52) == pow2(36) * pow2(16),
                pow2(16) > 0,
        ;
        assert(0 * k <= n * pow2(16)) by (nonlinear_arith);
        lemma_quotient_bounds(n * pow2(16), k, 0, pow2(52));
        lemma_quotient_scales(n, k, 0, -16, e, quotient_at(n, k, 0, e));
        lemma_pow2_pos((e + 16) as nat);
        assert(quotient_at(n, k, 0, e) * pow2((e + 16) as nat) >= quotient_at(n, k, 0, e))
            by (nonlinear_arith)
            requires
                pow2((e + 16) as nat) >= 1,
        ;
    }
}

/// Rounding `n / k`, counted in units of `2^-t`, does not pass the next
/// whole number, where the units are finer than `1 / k`.
proof fn lemma_rounded_stays_below(n: nat, k: nat, t: nat)
    requires
        k > 0,
        pow2(t) > k,
    ensures
        (n / k) * pow2(t) <= nearest_even(n * pow2(t), k) < (n / k + 1) * pow2(t),
{
    let d = n / k;
    let p = pow2(t);
    let num = n * p;
    vstd::arithmetic::div_mod::lemma_fundamental_div_mod(n as int, k as int);
    vstd::arithmetic::div_mod::lemma_mod_division_less_than_divisor(n as int, k as int);
    let r = n % k;
    assert(n == k * d + r);
    assert((d * p) * k <= num) by (nonlinear_arith)
        requires
            num == n * p,
            n == k * d + r,
            r >= 0,
    ;
    assert(num < ((d + 1) * p - 1) * k) by (nonlinear_arith)
        requires
            num == n * p,
            n == k * d + r,
            r <= k - 1,
            p > k,
            k > 0,
    ;
    assert((d + 1) * p - 1 >= 0) by (nonlinear_arith)
        requires
            p > 0,
            d >= 0,
    ;
    lemma_quotient_bounds(num, k, d * p, ((d + 1) * p - 1) as nat);
}

/// The whole part of the quotient of two whole numbers is the quotient of
/// the integers, where the divisor is below `2^17` and the quotient below
/// `2^36`: the rounding of the division does not reach the next whole number.
pub proof fn lemma_whole_div_trunc(a: Binary64, b: Binary64, n: nat, k: nat)
    requires
        holds_whole(a, n),
        holds_whole(b, k),
        0 < k < pow2(17),
        n < pow2(36) * k,
    ensures
        trunc_spec(div_spec(a, b)) == from_int_spec((n / k) as int),
{
    lemma_pow2_values();
    let ma = a.significand();
    let ea = a.exponent();
    let mk = b.significand();
    let ek = b.exponent();
    lemma_whole_zero(mk, ek, k);
    assert(!b.is_zero_spec());
    lemma_whole_quotient_value(ma, ea, n, mk, ek, k);
    lemma_quotient_ulp_bound(n, k);
    let e = ulp_exponent(n, k, 0);
    lemma_round_same_value(n, k, 0, ma, mk, ea - ek, e);
    assert(div_spec(a, b) == Binary64::compose(false, round_ratio(n, k, 0)));
    let t = (-e) as nat;
    let d = n / k;
    let m = nearest_even(n * pow2(t), k);
    assert(scaled_num(n, 0, e) == n * pow2(t));
    assert(scaled_den(k, 0, e) == k) by (nonlinear_arith)
        requires
            scaled_den(k, 0, e) == k * pow2(0),
            pow2(0) == 1,
    ;
    lemma_pow2_monotonic(17, t);
    lemma_rounded_stays_below(n, k, t);
    // the rounded significand and its pattern
    assert(m <= quotient_at(n, k, 0, e) + 1);
    assert((e + 1074) * pow2(52) >= 0) by (nonlinear_arith)
        requires
            -1074 <= e,
    ;
    assert((e + 1074) * pow2(52) + m < INFINITY_BITS) by (nonlinear_arith)
        requires
            -1074 <= e <= -17,
            m <= pow2(53),
            pow2(52) == 0x10_0000_0000_0000,
            pow2(53) == 0x20_0000_0000_0000,
            INFINITY_BITS == 0x7ff0_0000_0000_0000,
    ;
    assert(m >= pow2(52) || e == -1074);
    lemma_decode(e, m);
    let y = div_spec(a, b);
    let p = pow2(t);
    lemma_pow2_pos(t);
    // the whole part of the rounded quotient
    if m < pow2(53) {
        assert(y.significand() == m && y.exponent() == e);
        vstd::arithmetic::div_mod::lemma_fundamental_div_mod(m as int, p as int);
        vstd::arithmetic::div_mod::lemma_mod_division_less_than_divisor(m as int, p as int);
        assert(m / p == d) by (nonlinear_arith)
            requires
                d * p <= m < (d + 1) * p,
                m == p * (m / p) + m % p,
                0 <= m % p < p,
                p > 0,
        ;
    } else {
        assert(y.significand() == pow2(52) && y.exponent() == e + 1);
        let h = pow2((t - 1) as nat);
        vstd::arithmetic::power2::lemma_pow2_unfold(t);
        lemma_pow2_pos((t - 1) as nat);
        let w = pow2(52) / h;
        vstd::arithmetic::div_mod::lemma_fundamental_div_mod(pow2(52) as int, h as int);
        vstd::arithmetic::div_mod::lemma_mod_division_less_than_divisor(pow2(52) as int, h as int);
        assert(w == d) by (nonlinear_arith)
            requires
                d * p <= m < (d + 1) * p,
                m == 2 * pow2(52),
                p == 2 * h,
                pow2(52) == h * w + pow2(52) % h,
                0 <= pow2(52) % h < h,
                h > 0,
        ;
    }
    assert(whole_magnitude(y) == d);
}

/// The quotient of two whole numbers, where the division leaves no
/// remainder, is exact.
pub proof fn lemma_whole_div_exact(a: Binary64, b: Binary64, n: nat, k: nat)
    requires
        holds_whole(a, n),
        holds_whole(b, k),
        k > 0,
        n % k == 0,
    ensures
        div_spec(a, b) == from_int_spec((n / k) as int),
{
    lemma_pow2_values();
    let ma = a.significand();
    let ea = a.exponent();
    let mk = b.significand();
    let ek = b.exponent();
    lemma_whole_zero(mk, ek, k);
    assert(!b.is_zero_spec());
    lemma_whole_quotient_value(ma, ea, n, mk, ek, k);
    vstd::arithmetic::div_mod::lemma_fundamental_div_mod(n as int, k as int);
    assert(same_value(n, k, 0, n / k, 1, 0)) by (nonlinear_arith)
        requires
            n == k * (n / k),
            pow2(0) == 1,
            same_value(n, k, 0, n / k, 1, 0) == (n * 1 * pow2(clip(0)) == (n / k) * k * pow2(
                clip(0),
            )),
            clip(0) == 0,
    ;
    lemma_ulp_exponent_exists(n, k, 0);
    let e = ulp_exponent(n, k, 0);
    lemma_round_same_value(n, k, 0, ma, mk, ea - ek, e);
    lemma_round_same_value(n, k, 0, n / k, 1, 0, e);
}

/// A value written with `j` more binary places: `v * 2^x` is
/// `(v * 2^j) * 2^(x - j)`.
pub proof fn lemma_value_rescale(a: Binary64, v: nat, x: int, j: nat)
    requires
        holds_value(a, v, x),
    ensures
        holds_value(a, v * pow2(j), x - j),
{
    let m = a.significand();
    let e = a.exponent();
    lemma_value_relation(m, e, v, x);
    lemma_value_relation(m, e, v * pow2(j), x - j);
    let up = clip(e - x);
    let down = clip(x - e);
    let up_more = clip(e - x + j);
    let down_less = clip(x - j - e);
    assert(up_more + down == up + j + down_less);
    lemma_pow2_adds(up_more, down);
    lemma_pow2_adds(up, j + down_less);
    lemma_pow2_adds(j, down_less);
    lemma_pow2_pos(down);
    assert(m * (pow2(up_more) * pow2(down)) == (v * pow2(j)) * (pow2(down_less) * pow2(down))) by (nonlinear_arith)
        requires
            m * pow2(up) == v * pow2(down),
            pow2(up_more) * pow2(down) == pow2(up) * (pow2(j) * pow2(down_less)),
    ;
    lemma_cancel_power(m, v * pow2(j), pow2(up_more), pow2(down_less), pow2(down));
}

/// The integer part of a double that is exactly a whole number is that
/// number.
pub proof fn lemma_whole_magnitude(a: Binary64, v: nat)
    requires
        holds_whole(a, v),
    ensures
        whole_magnitude(a) == v,
{
    lemma_pow2_values();
    let m = a.significand();
    let e = a.exponent();
    lemma_whole_relation(m, e, v);
    if e >= 0 {
        assert(v * pow2(0) == v) by (nonlinear_arith)
            requires
                pow2(0) == 1,
        ;
    } else {
        let t = (-e) as nat;
        lemma_pow2_pos(t);
        assert(m * pow2(0) == m) by (nonlinear_arith)
            requires
                pow2(0) == 1,
        ;
        vstd::arithmetic::div_mod::lemma_fundamental_div_mod_converse(
            m as int,
            pow2(t) as int,
            v as int,
            0,
        );
    }
}

/// Two writings of one value are writings of each other.
pub proof fn lemma_same_value_chain(n1: nat, x1: int, n2: nat, x2: int, n3: nat, x3: int)
    requires
        same_value(n1, 1, x1, n2, 1, x2),
        same_value(n2, 1, x2, n3, 1, x3),
    ensures
        same_value(n1, 1, x1, n3, 1, x3),
{
    lemma_value_relation(n1, x1, n2, x2);
    lemma_value_relation(n2, x2, n3, x3);
    lemma_value_relation(n1, x1, n3, x3);
    let a = clip(x1 - x2);
    let b = clip(x2 - x1);
    let c = clip(x2 - x3);
    let d = clip(x3 - x2);
    let p = clip(x1 - x3);
    let q = clip(x3 - x1);
    // n1 2^a == n2 2^b and n2 2^c == n3 2^d give n1 2^(a+c) == n3 2^(b+d)
    lemma_pow2_adds(a, c);
    lemma_pow2_adds(b, d);
    assert(n1 * (pow2(a) * pow2(c)) == n3 * (pow2(b) * pow2(d))) by (nonlinear_arith)
        requires
            n1 * pow2(a) == n2 * pow2(b),
            n2 * pow2(c) == n3 * pow2(d),
    ;
    let common = (a + c - p) as nat;
    assert(b + d == q + common);
    lemma_pow2_adds(p, common);
    lemma_pow2_adds(q, common);
    lemma_pow2_pos(common);
    lemma_cancel_power(n1, n3, pow2(p), pow2(q), pow2(common));
}

/// The double is finite and is exactly `v * 2^x`, with the sign of `v`. A
/// zero of either sign is the value zero.
pub open spec fn holds_signed(a: Binary64, v: int, x: int) -> bool {
    &&& a.is_finite_spec()
    &&& v < 0 ==> a.sign()
    &&& v > 0 ==> !a.sign()
    &&& same_value(a.significand(), 1, a.exponent(), magnitude_of(v), 1, x)
}

/// The pattern of a finite double of the magnitude `n * 2^x` is the rounded
/// pattern of that value.
pub proof fn lemma_value_magnitude(a: Binary64, n: nat, x: int)
    requires
        a.is_finite_spec(),
        same_value(a.significand(), 1, a.exponent(), n, 1, x),
    ensures
        a.magnitude() == round_ratio(n, 1, x),
{
    lemma_pow2_values();
    lemma_magnitude_parts(a);
    let m = a.significand();
    let e = a.exponent();
    lemma_round_exact(m, e, 0);
    assert(m * pow2(0) == m) by (nonlinear_arith)
        requires
            pow2(0) == 1,
    ;
    lemma_round_same_value(m, 1, e, n, 1, x, e);
}

/// Two doubles of the same signed value are equal as numbers, and are the
/// same double unless the value is zero.
pub proof fn lemma_signed_unique(a: Binary64, b: Binary64, v: int, x: int)
    requires
        holds_signed(a, v, x),
        holds_signed(b, v, x),
    ensures
        crate::binary64::ieee_eq_spec(a, b),
        v != 0 ==> a == b,
{
    lemma_value_magnitude(a, magnitude_of(v), x);
    lemma_value_magnitude(b, magnitude_of(v), x);
    lemma_value_zero(a.significand(), a.exponent(), magnitude_of(v), x);
    lemma_magnitude_parts(a);
    lemma_magnitude_parts(b);
}

/// A signed multiple of a power of two with a factor below `2^53` in
/// magnitude is a double: the rounded pattern, under a fitting sign, holds
/// the value.
pub proof fn lemma_signed_holds(negative: bool, v: int, x: int)
    requires
        magnitude_of(v) < pow2(53),
        -1074 <= x <= 971,
        v < 0 ==> negative,
        v > 0 ==> !negative,
    ensures
        holds_signed(Binary64::compose(negative, round_ratio(magnitude_of(v), 1, x)), v, x),
{
    lemma_pow2_values();
    let n = magnitude_of(v);
    lemma_nearest_holds(n, x);
    lemma_round_ratio_bound(n, 1, x);
    let plain = nearest(n, x);
    let y = Binary64::compose(negative, round_ratio(n, 1, x));
    assert(plain.magnitude() == round_ratio(n, 1, x));
    assert(y.magnitude() == round_ratio(n, 1, x));
    assert(y.sign() == negative);
}

/// The sum of two finite doubles, first the one with the larger exponent,
/// where both are signed multiples of `2^x`: a zero where the exact sum is
/// zero, and else the double nearest to the exact sum.
proof fn lemma_signed_ordered(
    sh: bool,
    mh: nat,
    eh: int,
    vh: int,
    sl: bool,
    ml: nat,
    el: int,
    vl: int,
    x: int,
)
    requires
        eh >= el,
        same_value(mh, 1, eh, magnitude_of(vh), 1, x),
        same_value(ml, 1, el, magnitude_of(vl), 1, x),
        vh < 0 ==> sh,
        vh > 0 ==> !sh,
        vl < 0 ==> sl,
        vl > 0 ==> !sl,
    ensures
        vh + vl == 0 ==> sum_of_parts(sh, mh, eh, sl, ml, el).is_zero_spec(),
        vh + vl != 0 ==> sum_of_parts(sh, mh, eh, sl, ml, el) == Binary64::compose(
            vh + vl < 0,
            round_ratio(magnitude_of(vh + vl), 1, x),
        ),
{
    lemma_pow2_values();
    let g = (eh - el) as nat;
    let big = mh * pow2(g);
    let h = magnitude_of(vh);
    let l = magnitude_of(vl);
    lemma_aligned(mh, eh, h, ml, el, l, x);
    lemma_value_zero(mh, eh, h, x);
    lemma_value_zero(ml, el, l, x);
    let th = signed(sh, mh) * pow2(g);
    let tl = signed(sl, ml);
    assert(th == if vh < 0 {
        -(big as int)
    } else {
        big as int
    }) by (nonlinear_arith)
        requires
            th == signed(sh, mh) * pow2(g),
            big == mh * pow2(g),
            vh < 0 ==> signed(sh, mh) == -(mh as int),
            vh > 0 ==> signed(sh, mh) == mh as int,
            vh == 0 ==> mh == 0 && signed(sh, mh) == 0,
    ;
    assert(tl == if vl < 0 {
        -(ml as int)
    } else {
        ml as int
    });
    let total = th + tl;
    let sum = vh + vl;
    if (vh < 0) == (vl < 0) || vh == 0 || vl == 0 {
        // the magnitudes add up
        assert(magnitude_of(sum) == h + l);
        assert(magnitude_of(total) == big + ml);
        lemma_value_zero(big + ml, el, h + l, x);
        lemma_round_aligned(big + ml, el, h + l, x);
        assert((total < 0) == (sum < 0));
    } else if h >= l {
        assert(magnitude_of(sum) == h - l);
        assert(magnitude_of(total) == big - ml);
        lemma_value_zero((big - ml) as nat, el, (h - l) as nat, x);
        lemma_round_aligned((big - ml) as nat, el, (h - l) as nat, x);
        assert((total < 0) == (sum < 0));
    } else {
        assert(magnitude_of(sum) == l - h);
        assert(magnitude_of(total) == ml - big);
        lemma_value_zero((ml - big) as nat, el, (l - h) as nat, x);
        lemma_round_aligned((ml - big) as nat, el, (l - h) as nat, x);
        assert((total < 0) == (sum < 0));
    }
}

/// The sum of two signed multiples of `2^x` is a zero where the exact sum
/// is zero, and else the double nearest to the exact sum.
pub proof fn lemma_signed_add(a: Binary64, b: Binary64, va: int, vb: int, x: int)
    requires
        holds_signed(a, va, x),
        holds_signed(b, vb, x),
    ensures
        va + vb == 0 ==> add_spec(a, b).is_zero_spec(),
        va + vb != 0 ==> add_spec(a, b) == Binary64::compose(
            va + vb < 0,
            round_ratio(magnitude_of(va + vb), 1, x),
        ),
{
    if a.exponent() >= b.exponent() {
        lemma_signed_ordered(
            a.sign(),
            a.significand(),
            a.exponent(),
            va,
            b.sign(),
            b.significand(),
            b.exponent(),
            vb,
            x,
        );
    } else {
        lemma_signed_ordered(
            b.sign(),
            b.significand(),
            b.exponent(),
            vb,
            a.sign(),
            a.significand(),
            a.exponent(),
            va,
            x,
        );
    }
}

/// A zero is the value zero, at every scale.
proof fn lemma_zero_holds(z: Binary64, x: int)
    requires
        z.is_zero_spec(),
    ensures
        holds_signed(z, 0, x),
{
    lemma_pow2_values();
    assert(z.significand() == 0);
    lemma_value_relation(0, z.exponent(), 0, x);
    assert(0 * pow2(clip(z.exponent() - x)) == 0 * pow2(clip(x - z.exponent())))
        by (nonlinear_arith);
}

/// The sum of two signed multiples of `2^x` is exact where its factor is
/// below `2^53` in magnitude.
pub proof fn lemma_signed_add_holds(a: Binary64, b: Binary64, va: int, vb: int, x: int)
    requires
        holds_signed(a, va, x),
        holds_signed(b, vb, x),
        magnitude_of(va + vb) < pow2(53),
        -1074 <= x <= 971,
    ensures
        holds_signed(add_spec(a, b), va + vb, x),
{
    lemma_signed_add(a, b, va, vb, x);
    if va + vb == 0 {
        lemma_zero_holds(add_spec(a, b), x);
    } else {
        lemma_signed_holds(va + vb < 0, va + vb, x);
    }
}

/// The difference of two signed multiples of `2^x` is exact where its
/// factor is below `2^53` in magnitude.
pub proof fn lemma_signed_sub_holds(a: Binary64, b: Binary64, va: int, vb: int, x: int)
    requires
        holds_signed(a, va, x),
        holds_signed(b, vb, x),
        magnitude_of(va - vb) < pow2(53),
        -1074 <= x <= 971,
    ensures
        holds_signed(sub_spec(a, b), va - vb, x),
{
    let other = Binary64::compose(!b.sign(), b.magnitude());
    assert(other.magnitude() == b.magnitude() && other.sign() == !b.sign());
    assert(holds_signed(other, -vb, x));
    lemma_signed_add_holds(a, other, va, -vb, x);
}

/// The quotient of a signed multiple of `2^x` by a whole number that
/// divides its factor is exact.
pub proof fn lemma_signed_div_exact(a: Binary64, b: Binary64, va: int, k: nat, q: int, x: int)
    requires
        holds_signed(a, va, x),
        holds_whole(b, k),
        k > 0,
        va == q * k,
        magnitude_of(q) < pow2(53),
        -1074 <= x <= 971,
    ensures
        holds_signed(div_spec(a, b), q, x),
{
    lemma_pow2_values();
    let ma = a.significand();
    let ea = a.exponent();
    let mk = b.significand();
    let ek = b.exponent();
    let n = magnitude_of(va);
    let w = magnitude_of(q);
    lemma_whole_zero(mk, ek, k);
    assert(!b.is_zero_spec() && b.is_finite_spec() && !b.sign());
    assert(n == w * k && (q < 0) == (va < 0) && (q > 0) == (va > 0)) by (nonlinear_arith)
        requires
            va == q * k,
            k > 0,
            n == magnitude_of(va),
            w == magnitude_of(q),
            magnitude_of(va) == if va < 0 {
                -va
            } else {
                va
            },
            magnitude_of(q) == if q < 0 {
                -q
            } else {
                q
            },
    ;
    lemma_value_relation(ma, ea, n, x);
    lemma_whole_relation(mk, ek, k);
    let s = ea - ek - x;
    // (ma 2^clip(ea-x)) (k 2^clip(-ek)) == (w k 2^clip(x-ea)) (mk 2^clip(ek))
    lemma_product_of_relations(
        ma,
        pow2(clip(ea - x)),
        n,
        pow2(clip(x - ea)),
        k,
        pow2(clip(-ek)),
        mk,
        pow2(clip(ek)),
    );
    let c = (clip(ea - x) + clip(-ek) - clip(s)) as nat;
    assert(clip(x - ea) + clip(ek) == clip(-s) + c);
    lemma_pow2_adds(clip(ea - x), clip(-ek));
    lemma_pow2_adds(clip(x - ea), clip(ek));
    lemma_pow2_adds(clip(s), c);
    lemma_pow2_adds(clip(-s), c);
    lemma_pow2_pos(c);
    assert((ma * k) * (pow2(clip(s)) * pow2(c)) == ((w * mk) * k) * (pow2(clip(-s)) * pow2(c)))
        by (nonlinear_arith)
        requires
            (ma * k) * (pow2(clip(ea - x)) * pow2(clip(-ek))) == (n * mk) * (pow2(clip(x - ea))
                * pow2(clip(ek))),
            n == w * k,
            pow2(clip(ea - x)) * pow2(clip(-ek)) == pow2(clip(s)) * pow2(c),
            pow2(clip(x - ea)) * pow2(clip(ek)) == pow2(clip(-s)) * pow2(c),
    ;
    assert(ma * pow2(clip(s)) == (w * mk) * pow2(clip(-s))) by (nonlinear_arith)
        requires
            (ma * k) * (pow2(clip(s)) * pow2(c)) == ((w * mk) * k) * (pow2(clip(-s)) * pow2(c)),
            k > 0,
            pow2(c) > 0,
    ;
    assert(same_value(w, 1, x, ma, mk, ea - ek)) by (nonlinear_arith)
        requires
            ma * pow2(clip(s)) == (w * mk) * pow2(clip(-s)),
            same_value(w, 1, x, ma, mk, ea - ek) == (w * mk * pow2(clip(x - (ea - ek))) == ma * 1
                * pow2(clip((ea - ek) - x))),
            clip(x - (ea - ek)) == clip(-s),
            clip((ea - ek) - x) == clip(s),
    ;
    lemma_ulp_exponent_exists(w, 1, x);
    lemma_round_same_value(w, 1, x, ma, mk, ea - ek, ulp_exponent(w, 1, x));
    lemma_signed_holds(a.sign(), q, x);
}

/// The product of a signed multiple of `2^x` and a whole number is exact
/// where its factor is below `2^53` in magnitude.
pub proof fn lemma_signed_mul_whole(a: Binary64, b: Binary64, va: int, i: nat, x: int)
    requires
        holds_signed(a, va, x),
        holds_whole(b, i),
        magnitude_of(va * i) < pow2(53),
        -1074 <= x <= 971,
    ensures
        holds_signed(mul_spec(a, b), va * i, x),
{
    lemma_pow2_values();
    let ma = a.significand();
    let ea = a.exponent();
    let mb = b.significand();
    let eb = b.exponent();
    let n = magnitude_of(va);
    let w = magnitude_of(va * i);
    assert(w == n * i && (va * i < 0 ==> va < 0) && (va * i > 0 ==> va > 0)) by (nonlinear_arith)
        requires
            w == magnitude_of(va * i),
            n == magnitude_of(va),
            magnitude_of(va) == if va < 0 {
                -va
            } else {
                va
            },
            magnitude_of(va * i) == if va * i < 0 {
                -(va * i)
            } else {
                va * i
            },
            i >= 0,
    ;
    lemma_value_relation(ma, ea, n, x);
    lemma_whole_relation(mb, eb, i);
    lemma_value_relation(ma * mb, ea + eb, n * i, x);
    let s = ea + eb - x;
    lemma_product_of_relations(
        ma,
        pow2(clip(ea - x)),
        n,
        pow2(clip(x - ea)),
        mb,
        pow2(clip(eb)),
        i,
        pow2(clip(-eb)),
    );
    let c = (clip(ea - x) + clip(eb) - clip(s)) as nat;
    assert(clip(x - ea) + clip(-eb) == clip(-s) + c);
    lemma_pow2_adds(clip(ea - x), clip(eb));
    lemma_pow2_adds(clip(x - ea), clip(-eb));
    lemma_pow2_adds(clip(s), c);
    lemma_pow2_adds(clip(-s), c);
    lemma_pow2_pos(c);
    lemma_cancel_power(ma * mb, n * i, pow2(clip(s)), pow2(clip(-s)), pow2(c));
    lemma_ulp_exponent_exists(ma * mb, 1, ea + eb);
    lemma_round_same_value(ma * mb, 1, ea + eb, w, 1, x, ulp_exponent(ma * mb, 1, ea + eb));
    lemma_signed_holds(a.sign(), va * i, x);
}

} // verus!
