use vstd::prelude::*;

verus! {

/// The bit that carries the sign of a binary64 value.
pub const SIGN_BIT: u64 = 0x8000_0000_0000_0000;

/// The pattern of positive infinity; larger magnitudes are not numbers.
pub const INFINITY_BITS: u64 = 0x7FF0_0000_0000_0000;

/// The pattern of `0`.
pub const ZERO_BITS: u64 = 0x0000_0000_0000_0000;

/// The pattern of `1`.
pub const ONE_BITS: u64 = 0x3FF0_0000_0000_0000;

/// The pattern of `-1`.
pub const MINUS_ONE_BITS: u64 = 0xBFF0_0000_0000_0000;

/// The pattern of `2`.
pub const TWO_BITS: u64 = 0x4000_0000_0000_0000;

/// The pattern of the binary64 value nearest to one fifth.
pub const FIFTH_BITS: u64 = 0x3FC9_9999_9999_999A;

/// The pattern of the binary64 value nearest to one ten-millionth.
pub const TOLERANCE_BITS: u64 = 0x3E7A_D7F2_9ABC_AF48;

/// The pattern of the binary64 value nearest to pi.
pub const PI_BITS: u64 = 0x4009_21FB_5444_2D18;

/// The pattern of `1000`.
pub const THOUSAND_BITS: u64 = 0x408F_4000_0000_0000;

/// The pattern of the binary64 value nearest to 180 / pi.
pub const DEGREES_PER_RADIAN_BITS: u64 = 0x404C_A5DC_1A63_C1F8;

/// A real number, held as the bit pattern of an IEEE-754 binary64 value.
///
/// The library classifies and orders scalars itself, exactly as IEEE-754
/// orders the values the patterns stand for. It never computes with them:
/// every sum, product, root or trigonometric value is asked of an arithmetic
/// unit (see [`crate::arithmetic::Arithmetic`]).
#[derive(Clone, Copy, PartialEq, Eq, Structural, Debug)]
pub struct Scalar {
    pub bits: u64,
}

impl Scalar {
    /// The pattern without its sign bit.
    pub open spec fn spec_magnitude(&self) -> u64 {
        if self.bits >= SIGN_BIT {
            (self.bits - SIGN_BIT) as u64
        } else {
            self.bits
        }
    }

    /// Whether the sign bit is set (true of `-0` too).
    pub open spec fn spec_sign(&self) -> bool {
        self.bits >= SIGN_BIT
    }

    /// Whether the pattern is not a number.
    pub open spec fn spec_is_nan(&self) -> bool {
        self.spec_magnitude() > INFINITY_BITS
    }

    /// Whether the pattern is `0` or `-0`.
    pub open spec fn spec_is_zero(&self) -> bool {
        self.spec_magnitude() == 0
    }

    /// The place of a number on the line: magnitudes grow with their patterns,
    /// and a set sign bit mirrors them below zero. Both zeros have rank 0.
    pub open spec fn rank(&self) -> int {
        if self.spec_sign() {
            -(self.spec_magnitude() as int)
        } else {
            self.spec_magnitude() as int
        }
    }

    /// `self < other` as IEEE-754 compares: false when either is not a number.
    pub open spec fn spec_lt(&self, other: Scalar) -> bool {
        !self.spec_is_nan() && !other.spec_is_nan() && self.rank() < other.rank()
    }

    /// `self <= other` as IEEE-754 compares: false when either is not a number.
    pub open spec fn spec_le(&self, other: Scalar) -> bool {
        !self.spec_is_nan() && !other.spec_is_nan() && self.rank() <= other.rank()
    }

    /// The same magnitude with the sign bit cleared.
    pub open spec fn spec_abs(&self) -> Scalar {
        Scalar { bits: self.spec_magnitude() }
    }

    /// A key whose order on `u64` is the IEEE-754 total order of the patterns:
    /// negative values below positive ones, `-0` just below `0`, and no two
    /// patterns with the same key.
    pub open spec fn spec_sort_key(&self) -> u64 {
        if self.bits >= SIGN_BIT {
            (u64::MAX - self.bits) as u64
        } else {
            (self.bits + SIGN_BIT) as u64
        }
    }

    /// The scalar with the pattern `bits`.
    pub open spec fn spec_from_bits(bits: u64) -> Scalar {
        Scalar { bits }
    }

    /// The scalar with the pattern `bits`.
    #[verifier::when_used_as_spec(spec_from_bits)]
    pub fn from_bits(bits: u64) -> (r: Scalar)
        ensures
            r == Scalar::spec_from_bits(bits),
    {
        Scalar { bits }
    }

    /// The pattern of the scalar.
    pub fn to_bits(&self) -> (r: u64)
        ensures
            r == self.bits,
    {
        self.bits
    }

    /// The pattern without its sign bit.
    #[verifier::when_used_as_spec(spec_magnitude)]
    pub fn magnitude(&self) -> (r: u64)
        ensures
            r == self.spec_magnitude(),
    {
        if self.bits >= SIGN_BIT {
            self.bits - SIGN_BIT
        } else {
            self.bits
        }
    }

    /// Tells whether the sign bit is set.
    #[verifier::when_used_as_spec(spec_sign)]
    pub fn sign(&self) -> (r: bool)
        ensures
            r == self.spec_sign(),
    {
        self.bits >= SIGN_BIT
    }

    /// Tells whether the pattern is not a number.
    #[verifier::when_used_as_spec(spec_is_nan)]
    pub fn is_nan(&self) -> (r: bool)
        ensures
            r == self.spec_is_nan(),
    {
        self.magnitude() > INFINITY_BITS
    }

    /// Tells whether the pattern is `0` or `-0`.
    #[verifier::when_used_as_spec(spec_is_zero)]
    pub fn is_zero(&self) -> (r: bool)
        ensures
            r == self.spec_is_zero(),
    {
        self.magnitude() == 0
    }

    /// Tells whether `self < other`.
    #[verifier::when_used_as_spec(spec_lt)]
    pub fn lt(&self, other: Scalar) -> (r: bool)
        ensures
            r == self.spec_lt(other),
    {
        if self.is_nan() || other.is_nan() {
            return false;
        }
        let a: u64 = self.magnitude();
        let b: u64 = other.magnitude();
        if self.sign() {
            if other.sign() {
                b < a
            } else {
                a > 0 || b > 0
            }
        } else {
            if other.sign() {
                false
            } else {
                a < b
            }
        }
    }

    /// Tells whether `self <= other`.
    #[verifier::when_used_as_spec(spec_le)]
    pub fn le(&self, other: Scalar) -> (r: bool)
        ensures
            r == self.spec_le(other),
    {
        if self.is_nan() || other.is_nan() {
            return false;
        }
        let a: u64 = self.magnitude();
        let b: u64 = other.magnitude();
        if self.sign() {
            if other.sign() {
                b <= a
            } else {
                true
            }
        } else {
            if other.sign() {
                a == 0 && b == 0
            } else {
                a <= b
            }
        }
    }

    /// The same magnitude with the sign bit cleared.
    #[verifier::when_used_as_spec(spec_abs)]
    pub fn abs(&self) -> (r: Scalar)
        ensures
            r == self.spec_abs(),
    {
        Scalar { bits: self.magnitude() }
    }

    /// The key that the scalar is sorted by.
    #[verifier::when_used_as_spec(spec_sort_key)]
    pub fn sort_key(&self) -> (r: u64)
        ensures
            r == self.spec_sort_key(),
    {
        if self.bits >= SIGN_BIT {
            u64::MAX - self.bits
        } else {
            self.bits + SIGN_BIT
        }
    }
}

/// `<` is a strict order: nothing is below itself, two scalars are not below
/// each other, and what is below something below a third is below the third.
pub proof fn lemma_lt_is_strict_order(a: Scalar, b: Scalar, c: Scalar)
    ensures
        !a.lt(a),
        a.lt(b) ==> !b.lt(a),
        a.lt(b) && b.lt(c) ==> a.lt(c),
        a.lt(b) ==> a.le(b),
        a.le(b) && b.le(c) ==> a.le(c),
{
}

/// Of two numbers one is below the other, or they are equal in value; and
/// equal in value are the same pattern, or the two zeros.
pub proof fn lemma_numbers_compare(a: Scalar, b: Scalar)
    requires
        !a.is_nan(),
        !b.is_nan(),
    ensures
        a.lt(b) || b.lt(a) || (a.le(b) && b.le(a)),
        a.le(b) <==> !b.lt(a),
        a.le(b) && b.le(a) ==> a == b || (a.is_zero() && b.is_zero()),
{
}

/// What is not a number compares with nothing, not even with itself.
pub proof fn lemma_nan_compares_with_nothing(a: Scalar, b: Scalar)
    requires
        a.is_nan(),
    ensures
        !a.lt(b) && !b.lt(a) && !a.le(b) && !b.le(a),
{
}

/// The total order that samples are sorted by: by [`Scalar::sort_key`].
pub open spec fn key_le(a: Scalar, b: Scalar) -> bool {
    a.sort_key() <= b.sort_key()
}

/// Two scalars with one sort key are one pattern.
pub proof fn lemma_sort_key_injective(a: Scalar, b: Scalar)
    requires
        a.sort_key() == b.sort_key(),
    ensures
        a == b,
{
}

/// The sort key never puts the larger of two numbers first.
pub proof fn lemma_sort_key_respects_lt(a: Scalar, b: Scalar)
    requires
        a.lt(b),
    ensures
        a.sort_key() < b.sort_key(),
{
}

/// `x` held to the interval from -1 to 1; what is not a number passes through.
pub open spec fn spec_clamp_unit(x: Scalar) -> Scalar {
    if Scalar::from_bits(ONE_BITS).lt(x) {
        Scalar::from_bits(ONE_BITS)
    } else if x.lt(Scalar::from_bits(MINUS_ONE_BITS)) {
        Scalar::from_bits(MINUS_ONE_BITS)
    } else {
        x
    }
}

/// Holds `x` to the interval from -1 to 1.
#[verifier::when_used_as_spec(spec_clamp_unit)]
pub fn clamp_unit(x: Scalar) -> (r: Scalar)
    ensures
        r == spec_clamp_unit(x),
{
    let one = Scalar::from_bits(ONE_BITS);
    let minus_one = Scalar::from_bits(MINUS_ONE_BITS);
    if one.lt(x) {
        one
    } else if x.lt(minus_one) {
        minus_one
    } else {
        x
    }
}

} // verus!
