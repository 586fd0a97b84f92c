//! Multiplication, division, addition and subtraction of doubles, each
//! rounded once, to nearest with ties to even.
use vstd::prelude::*;
use vstd::arithmetic::power2::{pow2, lemma_pow2_pos, lemma_pow2_adds, lemma_pow2_unfold};
use crate::binary64::{Binary64, HIDDEN_BIT, INFINITY_BITS, NAN_BITS, SIGN_BIT};
use crate::rounding::{
    is_ulp_exponent, lemma_pow2_monotonic, lemma_pow2_values, lemma_round_ratio_at,
    nearest_even, pow2_u128, round_ratio, round_ratio_exec, scaled_den, scaled_num,
};

verus! {

/// The not-a-number that every operation without a numeric result returns.
/// Its sign bit is clear.
pub open spec fn nan() -> Binary64 {
    Binary64 { bits: NAN_BITS }
}

/// The product of two doubles.
///
/// With a not-a-number among the factors, and for zero times infinity, it is
/// the not-a-number. Else its sign is negative where exactly one factor's
/// is; an infinite factor makes it infinite, and the product of two finite
/// factors `ma * 2^ea` and `mb * 2^eb` is the double nearest to
/// `ma * mb * 2^(ea + eb)`, ties to the even significand, and infinity
/// where the largest finite double is passed.
pub open spec fn mul_spec(a: Binary64, b: Binary64) -> Binary64 {
    let sign = a.sign() != b.sign();
    if a.is_nan_spec() || b.is_nan_spec() {
        nan()
    } else if a.is_infinite_spec() || b.is_infinite_spec() {
        if a.is_zero_spec() || b.is_zero_spec() {
            nan()
        } else {
            Binary64::compose(sign, INFINITY_BITS as nat)
        }
    } else {
        Binary64::compose(
            sign,
            round_ratio(a.significand() * b.significand(), 1, a.exponent() + b.exponent()),
        )
    }
}

/// The quotient of two doubles.
///
/// With a not-a-number among the two, for infinity by infinity and for zero
/// by zero, it is the not-a-number. Else its sign is negative where exactly
/// one of the two signs is: infinity divided by anything finite, and
/// anything but zero divided by zero, is infinite; anything finite divided
/// by infinity is zero; and the quotient of two finite doubles `ma * 2^ea`
/// and `mb * 2^eb` is the double nearest to `ma / mb * 2^(ea - eb)`.
pub open spec fn div_spec(a: Binary64, b: Binary64) -> Binary64 {
    let sign = a.sign() != b.sign();
    if a.is_nan_spec() || b.is_nan_spec() {
        nan()
    } else if a.is_infinite_spec() {
        if b.is_infinite_spec() {
            nan()
        } else {
            Binary64::compose(sign, INFINITY_BITS as nat)
        }
    } else if b.is_infinite_spec() {
        Binary64::compose(sign, 0)
    } else if b.is_zero_spec() {
        if a.is_zero_spec() {
            nan()
        } else {
            Binary64::compose(sign, INFINITY_BITS as nat)
        }
    } else {
        Binary64::compose(
            sign,
            round_ratio(a.significand(), b.significand(), a.exponent() - b.exponent()),
        )
    }
}

/// `m` with the sign that `negative` gives it.
pub open spec fn signed(negative: bool, m: nat) -> int {
    if negative {
        -(m as int)
    } else {
        m as int
    }
}

/// The magnitude of an integer.
pub open spec fn magnitude_of(i: int) -> nat {
    if i < 0 {
        (-i) as nat
    } else {
        i as nat
    }
}

/// The sum of two finite doubles `mh * 2^eh` and `ml * 2^el`, with the signs
/// `sh` and `sl`, the first with the larger exponent. A sum that is exactly
/// zero is negative only where both terms are.
pub open spec fn sum_of_parts(sh: bool, mh: nat, eh: int, sl: bool, ml: nat, el: int) -> Binary64 {
    let total = signed(sh, mh) * pow2((eh - el) as nat) + signed(sl, ml);
    if total == 0 {
        Binary64::compose(sh && sl, 0)
    } else {
        Binary64::compose(total < 0, round_ratio(magnitude_of(total), 1, el))
    }
}

/// The sum of two doubles.
///
/// With a not-a-number among the terms, and for two infinities of different
/// signs, it is the not-a-number. An infinite term is the sum. The sum of
/// two finite terms is the double nearest to their exact sum.
pub open spec fn add_spec(a: Binary64, b: Binary64) -> Binary64 {
    if a.is_nan_spec() || b.is_nan_spec() {
        nan()
    } else if a.is_infinite_spec() {
        if b.is_infinite_spec() && a.sign() != b.sign() {
            nan()
        } else {
            a
        }
    } else if b.is_infinite_spec() {
        b
    } else if a.exponent() >= b.exponent() {
        sum_of_parts(a.sign(), a.significand(), a.exponent(), b.sign(), b.significand(), b.exponent())
    } else {
        sum_of_parts(b.sign(), b.significand(), b.exponent(), a.sign(), a.significand(), a.exponent())
    }
}

/// The difference of two doubles: the sum with the second negated.
pub open spec fn sub_spec(a: Binary64, b: Binary64) -> Binary64 {
    add_spec(a, Binary64::compose(!b.sign(), b.magnitude()))
}

/// A finite double's pattern is its significand above its exponent.
pub proof fn lemma_magnitude_parts(a: Binary64)
    requires
        a.is_finite_spec(),
    ensures
        a.magnitude() == (a.exponent() + 1074) * pow2(52) + a.significand(),
        a.significand() < pow2(53),
        -1074 <= a.exponent() <= 971,
        a.exponent() > -1074 ==> a.significand() >= pow2(52),
        a.significand() == 0 <==> a.is_zero_spec(),
{
    lemma_pow2_values();
}

/// A term more than 54 binary places below the last place of a normal double
/// does not change it: the sum and the difference round back to that double.
proof fn lemma_round_far(mh: nat, eh: int, ml: nat, g: nat, plus: bool)
    requires
        pow2(52) <= mh < pow2(53),
        ml < pow2(53),
        g >= 55,
        eh - g >= -1074,
        eh <= 971,
        !plus ==> ml > 0,
    ensures
        mh * pow2(g) > ml,
        round_ratio(
            if plus {
                mh * pow2(g) + ml
            } else {
                (mh * pow2(g) - ml) as nat
            },
            1,
            eh - g,
        ) == (eh + 1074) * pow2(52) + mh,
{
    lemma_pow2_values();
    lemma_pow2_monotonic(55, g);
    lemma_pow2_adds(53, 2);
    lemma_pow2_adds(2, 0);
    vstd::arithmetic::power2::lemma2_to64();
    let big = mh * pow2(g);
    assert(big >= pow2(52) * pow2(g)) by (nonlinear_arith)
        requires
            big == mh * pow2(g),
            mh >= pow2(52),
    ;
    assert(pow2(52) * pow2(g) >= pow2(g)) by (nonlinear_arith)
        requires
            pow2(52) >= 1,
    ;
    assert(pow2(g) >= 4 * pow2(53));
    let x = eh - g;
    let n: nat = if plus {
        big + ml
    } else {
        (big - ml) as nat
    };
    if plus {
        let e = eh;
        assert(scaled_num(n, x, e) == n) by (nonlinear_arith)
            requires
                scaled_num(n, x, e) == n * pow2(0),
                pow2(0) == 1,
        ;
        assert(scaled_den(1, x, e) == pow2(g)) by (nonlinear_arith)
            requires
                scaled_den(1, x, e) == 1 * pow2(g),
        ;
        vstd::arithmetic::div_mod::lemma_fundamental_div_mod_converse(
            n as int,
            pow2(g) as int,
            mh as int,
            ml as int,
        );
        assert(is_ulp_exponent(n, 1, x, e));
        lemma_round_ratio_at(n, 1, x, e);
        assert(nearest_even(n, pow2(g)) == mh);
    } else if mh > pow2(52) {
        let e = eh;
        assert(scaled_num(n, x, e) == n) by (nonlinear_arith)
            requires
                scaled_num(n, x, e) == n * pow2(0),
                pow2(0) == 1,
        ;
        assert(scaled_den(1, x, e) == pow2(g)) by (nonlinear_arith)
            requires
                scaled_den(1, x, e) == 1 * pow2(g),
        ;
        assert(n == (mh - 1) * pow2(g) + (pow2(g) - ml)) by (nonlinear_arith)
            requires
                n == mh * pow2(g) - ml,
        ;
        vstd::arithmetic::div_mod::lemma_fundamental_div_mod_converse(
            n as int,
            pow2(g) as int,
            mh - 1,
            pow2(g) - ml,
        );
        assert(is_ulp_exponent(n, 1, x, e));
        lemma_round_ratio_at(n, 1, x, e);
        assert(nearest_even(n, pow2(g)) == mh);
    } else {
        let e = eh - 1;
        let h = (g - 1) as nat;
        lemma_pow2_unfold(g);
        assert(scaled_num(n, x, e) == n) by (nonlinear_arith)
            requires
                scaled_num(n, x, e) == n * pow2(0),
                pow2(0) == 1,
        ;
        assert(scaled_den(1, x, e) == pow2(h)) by (nonlinear_arith)
            requires
                scaled_den(1, x, e) == 1 * pow2(h),
        ;
        assert(n == (pow2(53) - 1) * pow2(h) + (pow2(h) - ml)) by (nonlinear_arith)
            requires
                n == mh * pow2(g) - ml,
                mh == pow2(52),
                pow2(53) == 2 * pow2(52),
                pow2(g) == 2 * pow2(h),
        ;
        vstd::arithmetic::div_mod::lemma_fundamental_div_mod_converse(
            n as int,
            pow2(h) as int,
            pow2(53) - 1,
            pow2(h) - ml,
        );
        assert(is_ulp_exponent(n, 1, x, e));
        lemma_round_ratio_at(n, 1, x, e);
        assert(nearest_even(n, pow2(h)) == pow2(53));
        assert((e + 1074) * pow2(52) + pow2(53) == (eh + 1074) * pow2(52) + mh) by (nonlinear_arith)
            requires
                e == eh - 1,
                pow2(53) == 2 * pow2(52),
                mh == pow2(52),
        ;
    }
    assert((eh + 1074) * pow2(52) + mh < INFINITY_BITS) by (nonlinear_arith)
        requires
            eh <= 971,
            mh < pow2(53),
            pow2(52) == 0x10_0000_0000_0000,
            pow2(53) == 0x20_0000_0000_0000,
            INFINITY_BITS == 0x7ff0_0000_0000_0000,
    ;
}

/// The sum of two finite doubles, the first with the larger exponent.
fn add_ordered(hi: Binary64, lo: Binary64) -> (r: Binary64)
    requires
        hi.is_finite_spec(),
        lo.is_finite_spec(),
        hi.exponent() >= lo.exponent(),
    ensures
        r == sum_of_parts(
            hi.sign(),
            hi.significand(),
            hi.exponent(),
            lo.sign(),
            lo.significand(),
            lo.exponent(),
        ),
{
    let sh = hi.is_sign_negative();
    let sl = lo.is_sign_negative();
    let (mh, eh) = hi.unpack();
    let (ml, el) = lo.unpack();
    let g: i32 = eh - el;
    let ghost total = signed(sh, mh as nat) * pow2(g as nat) + signed(sl, ml as nat);
    proof {
        lemma_pow2_values();
        lemma_magnitude_parts(hi);
        lemma_pow2_pos(g as nat);
    }
    if g > 64 {
        let plus = sh == sl || ml == 0;
        proof {
            lemma_round_far(mh as nat, eh as int, ml as nat, g as nat, plus);
            let big = (mh as nat) * pow2(g as nat);
            assert(signed(sh, mh as nat) * pow2(g as nat) == signed(sh, big)) by (nonlinear_arith)
                requires
                    big == (mh as nat) * pow2(g as nat),
            ;
            assert(total != 0);
            assert((total < 0) == sh);
            assert(magnitude_of(total) == if plus {
                big + ml as nat
            } else {
                (big - ml) as nat
            });
        }
        return hi;
    }
    proof {
        lemma_pow2_monotonic(g as nat, 64);
        assert((mh as nat) * pow2(g as nat) < 0x20_0000_0000_0000 * 0x1_0000_0000_0000_0000)
            by (nonlinear_arith)
            requires
                mh < 0x20_0000_0000_0000,
                pow2(g as nat) <= 0x1_0000_0000_0000_0000,
        ;
    }
    let big: u128 = (mh as u128) * pow2_u128(g as u32);
    proof {
        assert(signed(sh, mh as nat) * pow2(g as nat) == signed(sh, big as nat)) by (nonlinear_arith)
            requires
                big == (mh as nat) * pow2(g as nat),
        ;
    }
    let negative: bool;
    let n: u128;
    if sh == sl {
        n = big + ml as u128;
        negative = sh;
    } else if big >= ml as u128 {
        n = big - ml as u128;
        negative = sh;
    } else {
        n = ml as u128 - big;
        negative = sl;
    }
    assert(n == magnitude_of(total));
    if n == 0 {
        return Binary64::with_sign(sh && sl, 0);
    }
    assert((total < 0) == negative);
    let magnitude = round_ratio_exec(n, 1, el);
    Binary64::with_sign(negative, magnitude)
}

impl Binary64 {
    /// The significand and the exponent of a finite double.
    pub fn unpack(self) -> (parts: (u64, i32))
        requires
            self.is_finite_spec(),
        ensures
            parts.0 == self.significand(),
            parts.1 == self.exponent(),
            parts.0 < 0x20_0000_0000_0000,
            -1074 <= parts.1 <= 971,
            parts.1 > -1074 ==> parts.0 >= 0x10_0000_0000_0000,
    {
        let m = self.magnitude_bits();
        let biased = m / HIDDEN_BIT;
        let fraction = m % HIDDEN_BIT;
        if biased == 0 {
            (fraction, -1074)
        } else {
            (HIDDEN_BIT + fraction, biased as i32 - 1075)
        }
    }

    /// The double with the given sign and magnitude pattern.
    pub fn with_sign(negative: bool, magnitude: u64) -> (r: Binary64)
        requires
            magnitude < SIGN_BIT,
        ensures
            r == Binary64::compose(negative, magnitude as nat),
            r.sign() == negative,
            r.magnitude() == magnitude,
    {
        if negative {
            Binary64 { bits: magnitude + SIGN_BIT }
        } else {
            Binary64 { bits: magnitude }
        }
    }

    /// `self * rhs`, rounded to nearest, ties to even.
    pub fn mul(self, rhs: Binary64) -> (r: Binary64)
        ensures
            r == mul_spec(self, rhs),
    {
        let negative = self.is_sign_negative() != rhs.is_sign_negative();
        if self.is_nan() || rhs.is_nan() {
            return Binary64 { bits: NAN_BITS };
        }
        if self.is_infinite() || rhs.is_infinite() {
            if self.magnitude_bits() == 0 || rhs.magnitude_bits() == 0 {
                return Binary64 { bits: NAN_BITS };
            }
            return Binary64::with_sign(negative, INFINITY_BITS);
        }
        let (ma, ea) = self.unpack();
        let (mb, eb) = rhs.unpack();
        proof {
            assert((ma as nat) * (mb as nat) < 0x20_0000_0000_0000 * 0x20_0000_0000_0000)
                by (nonlinear_arith)
                requires
                    ma < 0x20_0000_0000_0000,
                    mb < 0x20_0000_0000_0000,
            ;
        }
        let n: u128 = (ma as u128) * (mb as u128);
        let magnitude = round_ratio_exec(n, 1, ea + eb);
        Binary64::with_sign(negative, magnitude)
    }

    /// `self / rhs`, rounded to nearest, ties to even.
    pub fn div(self, rhs: Binary64) -> (r: Binary64)
        ensures
            r == div_spec(self, rhs),
    {
        let negative = self.is_sign_negative() != rhs.is_sign_negative();
        if self.is_nan() || rhs.is_nan() {
            return Binary64 { bits: NAN_BITS };
        }
        if self.is_infinite() {
            if rhs.is_infinite() {
                return Binary64 { bits: NAN_BITS };
            }
            return Binary64::with_sign(negative, INFINITY_BITS);
        }
        if rhs.is_infinite() {
            return Binary64::with_sign(negative, 0);
        }
        if rhs.magnitude_bits() == 0 {
            if self.magnitude_bits() == 0 {
                return Binary64 { bits: NAN_BITS };
            }
            return Binary64::with_sign(negative, INFINITY_BITS);
        }
        let (ma, ea) = self.unpack();
        let (mb, eb) = rhs.unpack();
        proof {
            lemma_magnitude_parts(rhs);
        }
        let magnitude = round_ratio_exec(ma as u128, mb, ea - eb);
        Binary64::with_sign(negative, magnitude)
    }

    /// `self + rhs`, rounded to nearest, ties to even.
    pub fn add(self, rhs: Binary64) -> (r: Binary64)
        ensures
            r == add_spec(self, rhs),
    {
        if self.is_nan() || rhs.is_nan() {
            return Binary64 { bits: NAN_BITS };
        }
        if self.is_infinite() {
            if rhs.is_infinite() && self.is_sign_negative() != rhs.is_sign_negative() {
                return Binary64 { bits: NAN_BITS };
            }
            return self;
        }
        if rhs.is_infinite() {
            return rhs;
        }
        let (_, ea) = self.unpack();
        let (_, eb) = rhs.unpack();
        if ea >= eb {
            add_ordered(self, rhs)
        } else {
            add_ordered(rhs, self)
        }
    }

    /// `self - rhs`, rounded to nearest, ties to even.
    pub fn sub(self, rhs: Binary64) -> (r: Binary64)
        ensures
            r == sub_spec(self, rhs),
    {
        self.add(rhs.neg())
    }
}

} // verus!
