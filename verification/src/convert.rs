//! Whole and fractional parts of a double, and its conversions from and to
//! integers.
use vstd::prelude::*;
use vstd::arithmetic::power2::{pow2, lemma_pow2_pos};
use crate::arithmetic::{lemma_magnitude_parts, sub_spec};
use crate::binary64::Binary64;
use crate::rounding::{
    lemma_pow2_monotonic, lemma_pow2_values, lemma_round_exact, pow2_u128, round_ratio,
    round_ratio_exec,
};

verus! {

/// The integer part of the magnitude of a finite double `m * 2^e`.
pub open spec fn whole_magnitude(a: Binary64) -> nat {
    if a.exponent() >= 0 {
        a.significand() * pow2(a.exponent() as nat)
    } else {
        a.significand() / pow2((-a.exponent()) as nat)
    }
}

/// The double without its fractional part, rounded toward zero. Infinities
/// and not-a-numbers stay as they are.
pub open spec fn trunc_spec(a: Binary64) -> Binary64 {
    if a.is_finite_spec() {
        Binary64::compose(a.sign(), round_ratio(whole_magnitude(a), 1, 0))
    } else {
        a
    }
}

/// What is left of the double once its integer part is taken away.
pub open spec fn fract_spec(a: Binary64) -> Binary64 {
    sub_spec(a, trunc_spec(a))
}

/// The double nearest to the integer `i`.
pub open spec fn from_int_spec(i: int) -> Binary64 {
    if i < 0 {
        Binary64::compose(true, round_ratio((-i) as nat, 1, 0))
    } else {
        Binary64::compose(false, round_ratio(i as nat, 1, 0))
    }
}

/// The integer part of the double, held to the range from zero to `max`:
/// zero for a not-a-number and for everything negative, `max` for everything
/// above it.
pub open spec fn saturating_whole(a: Binary64, max: nat) -> nat {
    if a.is_nan_spec() || a.sign() {
        0
    } else if a.is_infinite_spec() || whole_magnitude(a) > max {
        max
    } else {
        whole_magnitude(a)
    }
}

impl Binary64 {
    /// The integer part, rounded toward zero.
    pub fn trunc(self) -> (r: Binary64)
        ensures
            r == trunc_spec(self),
    {
        if !self.is_finite() {
            return self;
        }
        let (m, e) = self.unpack();
        proof {
            lemma_pow2_values();
            lemma_magnitude_parts(self);
        }
        if e >= 0 {
            proof {
                lemma_round_exact(m as nat, e as int, e as nat);
            }
            return self;
        }
        let t: i32 = -e;
        let whole: u64 = if t >= 53 {
            proof {
                lemma_pow2_monotonic(53, t as nat);
                assert((m as nat) / pow2(t as nat) == 0) by (nonlinear_arith)
                    requires
                        m < pow2(t as nat),
                ;
            }
            0
        } else {
            (m as u128 / pow2_u128(t as u32)) as u64
        };
        let magnitude = round_ratio_exec(whole as u128, 1, 0);
        Binary64::with_sign(self.is_sign_negative(), magnitude)
    }

    /// The fractional part: `self - self.trunc()`.
    pub fn fract(self) -> (r: Binary64)
        ensures
            r == fract_spec(self),
    {
        self.sub(self.trunc())
    }

    /// The double nearest to `n`.
    pub fn from_u64(n: u64) -> (r: Binary64)
        ensures
            r == from_int_spec(n as int),
    {
        Binary64::with_sign(false, round_ratio_exec(n as u128, 1, 0))
    }

    /// The double that is `n`.
    pub fn from_u32(n: u32) -> (r: Binary64)
        ensures
            r == from_int_spec(n as int),
    {
        Binary64::with_sign(false, round_ratio_exec(n as u128, 1, 0))
    }

    /// The double nearest to `n`.
    pub fn from_usize(n: usize) -> (r: Binary64)
        ensures
            r == from_int_spec(n as int),
    {
        Binary64::with_sign(false, round_ratio_exec(n as u128, 1, 0))
    }

    /// The double nearest to `i`.
    pub fn from_i64(i: i64) -> (r: Binary64)
        ensures
            r == from_int_spec(i as int),
    {
        if i < 0 {
            let n: u128 = (-(i as i128)) as u128;
            Binary64::with_sign(true, round_ratio_exec(n, 1, 0))
        } else {
            Binary64::with_sign(false, round_ratio_exec(i as u128, 1, 0))
        }
    }

    /// The double nearest to `i`, for an integer of fewer than 120 bits.
    pub(crate) fn from_i128(i: i128) -> (r: Binary64)
        requires
            -0x100_0000_0000_0000_0000_0000_0000_0000 < i < 0x100_0000_0000_0000_0000_0000_0000_0000,
        ensures
            r == from_int_spec(i as int),
    {
        if i < 0 {
            let n: u128 = (-i) as u128;
            Binary64::with_sign(true, round_ratio_exec(n, 1, 0))
        } else {
            Binary64::with_sign(false, round_ratio_exec(i as u128, 1, 0))
        }
    }

    /// The integer part of the magnitude of a finite double, where a `u64`
    /// can hold it.
    pub fn whole_u64(self) -> (r: Option<u64>)
        requires
            self.is_finite_spec(),
        ensures
            r == if whole_magnitude(self) > u64::MAX {
                None
            } else {
                Some(whole_magnitude(self) as u64)
            },
    {
        let (m, e) = self.unpack();
        proof {
            lemma_pow2_values();
            lemma_magnitude_parts(self);
        }
        if e >= 12 {
            proof {
                lemma_pow2_monotonic(12, e as nat);
                vstd::arithmetic::power2::lemma_pow2_adds(52, 12);
                assert((m as nat) * pow2(e as nat) >= pow2(52) * pow2(12)) by (nonlinear_arith)
                    requires
                        m >= pow2(52),
                        pow2(e as nat) >= pow2(12),
                ;
            }
            None
        } else if e >= 0 {
            proof {
                lemma_pow2_monotonic(e as nat, 11);
                lemma_pow2_pos(e as nat);
                vstd::arithmetic::power2::lemma_pow2_adds(53, 11);
                assert((m as nat) * pow2(e as nat) < pow2(53) * pow2(11)) by (nonlinear_arith)
                    requires
                        m < pow2(53),
                        0 < pow2(e as nat) <= pow2(11),
                ;
            }
            let whole: u128 = (m as u128) * pow2_u128(e as u32);
            Some(whole as u64)
        } else {
            let t: i32 = -e;
            if t >= 53 {
                proof {
                    lemma_pow2_monotonic(53, t as nat);
                    assert((m as nat) / pow2(t as nat) == 0) by (nonlinear_arith)
                        requires
                            m < pow2(t as nat),
                    ;
                }
                Some(0)
            } else {
                proof {
                    lemma_pow2_pos(t as nat);
                    assert((m as nat) / pow2(t as nat) <= m) by (nonlinear_arith)
                        requires
                            pow2(t as nat) > 0,
                    ;
                }
                Some((m as u128 / pow2_u128(t as u32)) as u64)
            }
        }
    }

    /// The integer part of the magnitude of a finite double, modulo `k`.
    pub fn whole_rem(self, k: u32) -> (r: u32)
        requires
            self.is_finite_spec(),
            k > 0,
        ensures
            r == whole_magnitude(self) % (k as nat),
    {
        match self.whole_u64() {
            Some(whole) => (whole % (k as u64)) as u32,
            None => {
                let (m, e) = self.unpack();
                proof {
                    lemma_pow2_values();
                    if e < 0 {
                        lemma_pow2_pos((-e) as nat);
                        assert((m as nat) / pow2((-e) as nat) <= m) by (nonlinear_arith)
                            requires
                                pow2((-e) as nat) > 0,
                        ;
                    }
                    assert((m as nat) * pow2(0) == m) by (nonlinear_arith)
                        requires
                            pow2(0) == 1,
                    ;
                }
                let mut r: u64 = m % (k as u64);
                let mut i: i32 = 0;
                while i < e
                    invariant
                        0 <= i <= e,
                        k > 0,
                        r < k,
                        r == ((m as nat) * pow2(i as nat)) % (k as nat),
                    decreases e - i,
                {
                    proof {
                        let before = (m as nat) * pow2(i as nat);
                        vstd::arithmetic::power2::lemma_pow2_unfold((i + 1) as nat);
                        assert((m as nat) * pow2((i + 1) as nat) == before * 2) by (nonlinear_arith)
                            requires
                                before == (m as nat) * pow2(i as nat),
                                pow2((i + 1) as nat) == 2 * pow2(i as nat),
                        ;
                        vstd::arithmetic::div_mod::lemma_mul_mod_noop_left(
                            before as int,
                            2,
                            k as int,
                        );
                    }
                    r = (r * 2) % (k as u64);
                    i = i + 1;
                }
                r as u32
            },
        }
    }

    /// The integer part as a `u64`, saturating: zero for a not-a-number and
    /// for negative values, the largest `u64` for values above it.
    pub fn to_u64(self) -> (n: u64)
        ensures
            n == saturating_whole(self, u64::MAX as nat),
    {
        if self.is_nan() || self.is_sign_negative() {
            return 0;
        }
        if self.is_infinite() {
            return u64::MAX;
        }
        match self.whole_u64() {
            Some(whole) => whole,
            None => u64::MAX,
        }
    }

    /// The integer part as a `u32`, saturating in the same way.
    pub fn to_u32(self) -> (n: u32)
        ensures
            n == saturating_whole(self, u32::MAX as nat),
    {
        let wide = self.to_u64();
        if wide > 0xffff_ffff {
            u32::MAX
        } else {
            wide as u32
        }
    }
}

} // verus!
