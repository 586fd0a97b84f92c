//! The IEEE 754 binary64 format, held as its bit pattern.
use vstd::prelude::*;

verus! {

/// The pattern with only the sign bit set.
pub const SIGN_BIT: u64 = 0x8000_0000_0000_0000;

/// The magnitude pattern of infinity: every exponent bit set, no fraction bit.
pub const INFINITY_BITS: u64 = 0x7ff0_0000_0000_0000;

/// The magnitude pattern of the not-a-number that the arithmetic produces.
pub const NAN_BITS: u64 = 0x7ff8_0000_0000_0000;

/// The value of the hidden bit of a normal significand, two to the 52nd.
pub const HIDDEN_BIT: u64 = 0x10_0000_0000_0000;

/// One double-precision floating-point number, stored as its 64 bits: from
/// the top, one sign bit, eleven exponent bits and 52 fraction bits.
#[derive(Debug, Clone, Copy)]
pub struct Binary64 {
    pub bits: u64,
}

/// Where a double that is a number stands among the others: its magnitude
/// pattern, counted downward for the negative ones. Both zeros stand at zero.
pub open spec fn order_key(a: Binary64) -> int {
    if a.sign() {
        -(a.magnitude() as int)
    } else {
        a.magnitude() as int
    }
}

/// Numeric equality: no not-a-number equals anything, and the two zeros are
/// equal.
pub open spec fn ieee_eq_spec(a: Binary64, b: Binary64) -> bool {
    !a.is_nan_spec() && !b.is_nan_spec() && order_key(a) == order_key(b)
}

/// Numeric order: no not-a-number is below or above anything.
pub open spec fn ieee_lt_spec(a: Binary64, b: Binary64) -> bool {
    !a.is_nan_spec() && !b.is_nan_spec() && order_key(a) < order_key(b)
}

impl Binary64 {
    /// Whether the sign bit is set. Zeros, infinities and not-a-numbers have a
    /// sign too.
    pub open spec fn sign(self) -> bool {
        self.bits >= SIGN_BIT
    }

    /// The pattern without its sign bit.
    pub open spec fn magnitude(self) -> nat {
        if self.bits >= SIGN_BIT {
            (self.bits - SIGN_BIT) as nat
        } else {
            self.bits as nat
        }
    }

    /// The eleven exponent bits, read as a number.
    pub open spec fn biased_exponent(self) -> nat {
        self.magnitude() / (HIDDEN_BIT as nat)
    }

    /// The 52 fraction bits, read as a number.
    pub open spec fn fraction(self) -> nat {
        self.magnitude() % (HIDDEN_BIT as nat)
    }

    /// Whether the double is not a number: every exponent bit set, and some
    /// fraction bit.
    pub open spec fn is_nan_spec(self) -> bool {
        self.magnitude() > INFINITY_BITS
    }

    /// Whether the double is an infinity.
    pub open spec fn is_infinite_spec(self) -> bool {
        self.magnitude() == INFINITY_BITS
    }

    /// Whether the double is a zero, a subnormal or a normal number.
    pub open spec fn is_finite_spec(self) -> bool {
        self.magnitude() < INFINITY_BITS
    }

    /// Whether the double is one of the two zeros.
    pub open spec fn is_zero_spec(self) -> bool {
        self.magnitude() == 0
    }

    /// The integer `m` of a finite number `m * 2^e`: the fraction bits, and
    /// the hidden bit above them unless the number is subnormal.
    pub open spec fn significand(self) -> nat {
        if self.biased_exponent() == 0 {
            self.fraction()
        } else {
            HIDDEN_BIT as nat + self.fraction()
        }
    }

    /// The integer `e` of a finite number `m * 2^e`.
    pub open spec fn exponent(self) -> int {
        if self.biased_exponent() == 0 {
            -1074
        } else {
            self.biased_exponent() - 1075
        }
    }

    /// The number with the given sign and magnitude pattern.
    pub open spec fn compose(sign: bool, magnitude: nat) -> Binary64 {
        Binary64 { bits: (if sign { magnitude + SIGN_BIT } else { magnitude as int }) as u64 }
    }

    /// The double with the given bit pattern.
    pub open spec fn from_bits_spec(bits: u64) -> Binary64 {
        Binary64 { bits }
    }

    /// The double with the given bit pattern.
    #[verifier::when_used_as_spec(from_bits_spec)]
    pub fn from_bits(bits: u64) -> (x: Binary64)
        ensures
            x == Binary64::from_bits_spec(bits),
    {
        Binary64 { bits }
    }

    /// The bit pattern of the double.
    pub fn to_bits(self) -> (bits: u64)
        ensures
            bits == self.bits,
    {
        self.bits
    }

    /// Whether the sign bit is set.
    pub fn is_sign_negative(self) -> (b: bool)
        ensures
            b == self.sign(),
    {
        self.bits >= SIGN_BIT
    }

    /// Whether the sign bit is clear.
    pub fn is_sign_positive(self) -> (b: bool)
        ensures
            b == !self.sign(),
    {
        self.bits < SIGN_BIT
    }

    /// The pattern without its sign bit.
    pub fn magnitude_bits(self) -> (m: u64)
        ensures
            m == self.magnitude(),
            m < SIGN_BIT,
    {
        if self.bits >= SIGN_BIT {
            self.bits - SIGN_BIT
        } else {
            self.bits
        }
    }

    /// Whether the double is not a number.
    pub fn is_nan(self) -> (b: bool)
        ensures
            b == self.is_nan_spec(),
    {
        self.magnitude_bits() > INFINITY_BITS
    }

    /// Whether the double is an infinity.
    pub fn is_infinite(self) -> (b: bool)
        ensures
            b == self.is_infinite_spec(),
    {
        self.magnitude_bits() == INFINITY_BITS
    }

    /// Whether the double is neither an infinity nor a not-a-number.
    pub fn is_finite(self) -> (b: bool)
        ensures
            b == self.is_finite_spec(),
    {
        self.magnitude_bits() < INFINITY_BITS
    }

    /// The same magnitude with the sign bit clear.
    pub fn abs(self) -> (r: Binary64)
        ensures
            r == Binary64::compose(false, self.magnitude()),
    {
        Binary64 { bits: self.magnitude_bits() }
    }

    /// The same magnitude with the other sign.
    pub fn neg(self) -> (r: Binary64)
        ensures
            r == Binary64::compose(!self.sign(), self.magnitude()),
    {
        if self.bits >= SIGN_BIT {
            Binary64 { bits: self.bits - SIGN_BIT }
        } else {
            Binary64 { bits: self.bits + SIGN_BIT }
        }
    }

    /// Whether the two are numerically equal.
    pub fn ieee_eq(self, other: Binary64) -> (b: bool)
        ensures
            b == ieee_eq_spec(self, other),
    {
        if self.is_nan() || other.is_nan() {
            false
        } else {
            let ma = self.magnitude_bits();
            let mb = other.magnitude_bits();
            (ma == 0 && mb == 0) || self.bits == other.bits
        }
    }

    /// Whether `self` is numerically below `other`.
    pub fn ieee_lt(self, other: Binary64) -> (b: bool)
        ensures
            b == ieee_lt_spec(self, other),
    {
        if self.is_nan() || other.is_nan() {
            false
        } else {
            let ma = self.magnitude_bits();
            let mb = other.magnitude_bits();
            if self.is_sign_negative() {
                if other.is_sign_negative() {
                    ma > mb
                } else {
                    ma != 0 || mb != 0
                }
            } else {
                if other.is_sign_negative() {
                    false
                } else {
                    ma < mb
                }
            }
        }
    }

    /// Whether `self` is numerically above `other`.
    pub fn ieee_gt(self, other: Binary64) -> (b: bool)
        ensures
            b == ieee_lt_spec(other, self),
    {
        other.ieee_lt(self)
    }
}

} // verus!
