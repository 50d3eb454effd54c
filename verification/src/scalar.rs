//! Double-precision numbers as the renderer's decisions see them.
//!
//! The verifier does not reason about floating-point arithmetic, so this crate
//! never computes with a double. It takes each number by its IEEE 754 binary64
//! bit pattern and decides by comparing: a pattern is a sign bit followed by a
//! 63-bit magnitude, and among numbers that are not NaN the order of the values
//! is the order of the signed magnitudes.

use vstd::prelude::*;
use vstd::arithmetic::power2::pow2;
use vstd::arithmetic::power2::lemma2_to64;
use vstd::arithmetic::power2::lemma2_to64_rest;
use vstd::arithmetic::power2::lemma_pow2_pos;
use vstd::arithmetic::power2::lemma_pow2_strictly_increases;
use vstd::arithmetic::power2::lemma_pow2_unfold;

verus! {

/// The sign bit of a pattern.
pub const SIGN_BIT: u64 = 0x8000_0000_0000_0000;

/// The pattern of positive infinity. Every larger magnitude is a NaN.
pub const INFINITY_BITS: u64 = 0x7FF0_0000_0000_0000;

/// The pattern of `1.0`.
pub const ONE_BITS: u64 = 0x3FF0_0000_0000_0000;

/// The number of patterns per binade: two to the power of 52.
pub const HIDDEN_BIT: u64 = 0x0010_0000_0000_0000;

/// A double-precision number, held by its bit pattern.
#[derive(Clone, Copy, Debug, PartialEq, Eq, Structural)]
pub struct Scalar {
    pub bits: u64,
}

impl Scalar {
    /// The pattern without its sign bit.
    pub open spec fn magnitude(self) -> int {
        self.bits as int % 0x8000_0000_0000_0000
    }

    /// Whether the sign bit is set. Holds of `-0.0` too.
    pub open spec fn negative(self) -> bool {
        self.bits >= 0x8000_0000_0000_0000
    }

    /// Whether the pattern is a NaN, which compares false with everything.
    pub open spec fn is_nan(self) -> bool {
        self.magnitude() > 0x7FF0_0000_0000_0000
    }

    /// The signed magnitude. Of two numbers that are not NaN the smaller has
    /// the smaller key, and both zeros have key 0.
    pub open spec fn key(self) -> int {
        if self.negative() {
            -self.magnitude()
        } else {
            self.magnitude()
        }
    }

    /// `self < other` as doubles compare.
    pub open spec fn spec_lt(self, other: Scalar) -> bool {
        !self.is_nan() && !other.is_nan() && self.key() < other.key()
    }

    /// `self > other` as doubles compare.
    pub open spec fn spec_gt(self, other: Scalar) -> bool {
        other.spec_lt(self)
    }

    /// The biased exponent field, 0 to 2047.
    pub open spec fn exponent(self) -> int {
        self.magnitude() / 0x0010_0000_0000_0000
    }

    /// The fraction field, below two to the power of 52.
    pub open spec fn fraction(self) -> int {
        self.magnitude() % 0x0010_0000_0000_0000
    }

    /// The significand: the fraction field, with the hidden bit above it
    /// unless the number is subnormal.
    pub open spec fn significand(self) -> nat {
        if self.exponent() == 0 {
            self.fraction() as nat
        } else {
            (0x0010_0000_0000_0000 + self.fraction()) as nat
        }
    }

    /// The power of two that the significand counts, above the smallest one.
    pub open spec fn binade(self) -> nat {
        if self.exponent() == 0 {
            0
        } else {
            (self.exponent() - 1) as nat
        }
    }

    /// The absolute value of a number that is not a NaN, in units of
    /// `2^-1074`: every double is a whole number of these. For an infinity it
    /// is the power of two above every finite number.
    pub open spec fn numerator(self) -> nat {
        self.significand() * pow2(self.binade())
    }

    /// The value of a number that is not a NaN, in units of `2^-1074`.
    pub open spec fn value(self) -> int {
        if self.negative() {
            -(self.numerator() as int)
        } else {
            self.numerator() as int
        }
    }

    /// The pattern with the sign bit flipped.
    pub open spec fn spec_neg(self) -> Scalar {
        if self.negative() {
            Scalar { bits: (self.bits - 0x8000_0000_0000_0000) as u64 }
        } else {
            Scalar { bits: (self.bits + 0x8000_0000_0000_0000) as u64 }
        }
    }

    pub fn from_bits(bits: u64) -> (s: Scalar)
        ensures
            s.bits == bits,
    {
        Scalar { bits }
    }

    pub fn to_bits(&self) -> (bits: u64)
        ensures
            bits == self.bits,
    {
        self.bits
    }

    /// `0.0`.
    pub fn zero() -> (s: Scalar)
        ensures
            s.bits == 0,
            s.key() == 0,
            !s.is_nan(),
    {
        Scalar { bits: 0 }
    }

    /// `1.0`.
    pub fn one() -> (s: Scalar)
        ensures
            s.bits == ONE_BITS,
            s.key() == ONE_BITS,
            !s.is_nan(),
    {
        Scalar { bits: ONE_BITS }
    }

    pub fn is_negative(&self) -> (r: bool)
        ensures
            r == self.negative(),
    {
        self.bits >= SIGN_BIT
    }

    pub fn abs_bits(&self) -> (m: u64)
        ensures
            m == self.magnitude(),
            m < SIGN_BIT,
    {
        self.bits % SIGN_BIT
    }

    pub fn is_not_a_number(&self) -> (r: bool)
        ensures
            r == self.is_nan(),
    {
        self.abs_bits() > INFINITY_BITS
    }

    pub fn order_key(&self) -> (k: i64)
        ensures
            k == self.key(),
    {
        let m: u64 = self.abs_bits();
        if self.bits >= SIGN_BIT {
            -(m as i64)
        } else {
            m as i64
        }
    }

    /// `self < other`, false as soon as one of the two is a NaN.
    pub fn lt(&self, other: &Scalar) -> (r: bool)
        ensures
            r == self.spec_lt(*other),
    {
        !self.is_not_a_number() && !other.is_not_a_number() && self.order_key() < other.order_key()
    }

    /// `self > other`, false as soon as one of the two is a NaN.
    pub fn gt(&self, other: &Scalar) -> (r: bool)
        ensures
            r == self.spec_gt(*other),
    {
        other.lt(self)
    }

    /// `-self`: the same magnitude under the other sign.
    pub fn neg(&self) -> (r: Scalar)
        ensures
            r == self.spec_neg(),
            r.magnitude() == self.magnitude(),
            r.negative() == !self.negative(),
            r.is_nan() == self.is_nan(),
            r.key() == -self.key(),
    {
        if self.bits >= SIGN_BIT {
            Scalar { bits: self.bits - SIGN_BIT }
        } else {
            Scalar { bits: self.bits + SIGN_BIT }
        }
    }
}

/// Among numbers that are not NaN, `<` is a strict total order up to the two
/// zeros: exactly one of `a < b`, `b < a` and "equal keys" holds, and `<` is
/// transitive.
pub proof fn lemma_order_is_total(a: Scalar, b: Scalar, c: Scalar)
    requires
        !a.is_nan(),
        !b.is_nan(),
        !c.is_nan(),
    ensures
        a.spec_lt(b) || b.spec_lt(a) || a.key() == b.key(),
        !(a.spec_lt(b) && b.spec_lt(a)),
        a.spec_lt(b) ==> a.key() != b.key(),
        a.spec_lt(b) && b.spec_lt(c) ==> a.spec_lt(c),
{
}

/// Of two patterns without sign that are not NaN, the smaller pattern is the
/// smaller number.
proof fn lemma_numerator_increases(a: Scalar, b: Scalar)
    requires
        !a.is_nan(),
        !b.is_nan(),
        a.magnitude() < b.magnitude(),
    ensures
        a.numerator() < b.numerator(),
{
    let half = pow2(52);
    assert(half == 0x0010_0000_0000_0000 && pow2(0) == 1) by {
        lemma2_to64();
        lemma2_to64_rest();
    }
    let low = pow2(a.binade());
    let high = pow2(b.binade());
    lemma_pow2_pos(a.binade());
    lemma_pow2_pos(b.binade());
    assert(a.exponent() <= b.exponent());
    if a.exponent() == b.exponent() {
        assert(a.fraction() < b.fraction());
        assert(a.significand() * low < b.significand() * low) by (nonlinear_arith)
            requires
                a.significand() < b.significand(),
                low > 0,
        ;
    } else if a.exponent() == 0 {
        assert(a.numerator() == a.significand()) by (nonlinear_arith)
            requires
                a.numerator() == a.significand() * low,
                low == 1,
        ;
        assert(b.significand() * high >= half) by (nonlinear_arith)
            requires
                b.significand() >= half,
                high >= 1,
        ;
    } else {
        // a is below the next power of two, which b is not below
        let next = (a.binade() + 1) as nat;
        lemma_pow2_unfold(next);
        assert(next <= b.binade());
        if next < b.binade() {
            lemma_pow2_strictly_increases(next, b.binade());
        }
        assert(a.significand() * low < half * pow2(next)) by (nonlinear_arith)
            requires
                a.significand() < 2 * half,
                pow2(next) == 2 * low,
                low > 0,
        ;
        assert(half * pow2(next) <= b.significand() * high) by (nonlinear_arith)
            requires
                half <= b.significand(),
                0 < pow2(next) <= high,
        ;
    }
}

/// The order of the keys is the order of the numbers: of two numbers that are
/// not NaN, one has the smaller key exactly if it has the smaller value, and
/// they have the same key exactly if they have the same value.
pub proof fn lemma_key_orders_values(a: Scalar, b: Scalar)
    requires
        !a.is_nan(),
        !b.is_nan(),
    ensures
        a.key() < b.key() <==> a.value() < b.value(),
        a.key() == b.key() <==> a.value() == b.value(),
        a.spec_lt(b) <==> a.value() < b.value(),
{
    let zero = Scalar { bits: 0 };
    assert(zero.numerator() == 0) by (nonlinear_arith)
        requires
            zero.numerator() == 0 * pow2(zero.binade()),
    ;
    if a.magnitude() < b.magnitude() {
        lemma_numerator_increases(a, b);
    }
    if b.magnitude() < a.magnitude() {
        lemma_numerator_increases(b, a);
    }
    if 0 < a.magnitude() {
        lemma_numerator_increases(zero, a);
    }
    if 0 < b.magnitude() {
        lemma_numerator_increases(zero, b);
    }
}

/// Negation turns the order around.
pub proof fn lemma_neg_reverses_order(a: Scalar, b: Scalar)
    ensures
        a.spec_neg().spec_lt(b.spec_neg()) == b.spec_lt(a),
        a.spec_neg().spec_neg() == a,
{
}

} // verus!
