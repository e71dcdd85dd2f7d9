//! IEEE 754 double-precision numbers, held by their bit pattern.

use vstd::arithmetic::power2::{lemma_pow2_adds, lemma_pow2_pos, lemma_pow2_strictly_increases, lemma_pow2_unfold, pow2};
use vstd::prelude::*;

verus! {

/// The bit that holds the sign.
pub const SIGN_BIT: u64 = 0x8000_0000_0000_0000;

/// The bit pattern of positive infinity: any larger magnitude is NaN.
pub const INFINITY_BITS: u64 = 0x7ff0_0000_0000_0000;

/// The bit pattern of one quiet NaN.
pub const NAN_BITS: u64 = 0x7ff8_0000_0000_0000;

/// The bit pattern of 0.0.
pub const ZERO_BITS: u64 = 0;

/// The bit pattern of 2.0.
pub const TWO_BITS: u64 = 0x4000_0000_0000_0000;

/// The bit pattern of 99.0.
pub const NINETY_NINE_BITS: u64 = 0x4058_c000_0000_0000;

/// The bit pattern of 100.0.
pub const HUNDRED_BITS: u64 = 0x4059_0000_0000_0000;

/// A double-precision number, given by its bit pattern.
#[derive(Clone, Copy, PartialEq, Eq, Structural, Debug)]
pub struct Double {
    pub bits: u64,
}

/// What the magnitude bits `m` (exponent and fraction, without the sign) stand
/// for, in units of the least positive number, two to the power of -1074. The
/// magnitude of infinity counts as the number that would follow the largest
/// finite one.
pub open spec fn scaled_magnitude(m: int) -> int {
    let exponent = m / 0x10_0000_0000_0000;
    let fraction = m % 0x10_0000_0000_0000;
    if exponent == 0 {
        fraction
    } else {
        (0x10_0000_0000_0000 + fraction) * pow2((exponent - 1) as nat)
    }
}

/// One, in the units of `Double::value`.
pub open spec fn unit() -> int {
    pow2(1074) as int
}

/// Whether some finite number has the value `v`.
pub open spec fn is_value(v: int) -> bool {
    exists|d: Double| d.finite() && #[trigger] d.value() == v
}

/// Whether some finite number has the value `v / n`.
pub open spec fn has_quotient(v: int, n: int) -> bool {
    exists|d: Double| d.finite() && #[trigger] d.value() * n == v
}

/// The sum of the values of `s`.
pub open spec fn total(s: Seq<Double>) -> int
    decreases s.len(),
{
    if s.len() == 0 {
        0
    } else {
        total(s.drop_last()) + s.last().value()
    }
}

impl Double {
    /// Whether the sign bit is set.
    pub open spec fn negative(self) -> bool {
        self.bits >= SIGN_BIT
    }

    /// The exponent and fraction bits.
    pub open spec fn magnitude(self) -> int {
        if self.negative() {
            self.bits - SIGN_BIT
        } else {
            self.bits as int
        }
    }

    /// Whether this is no number.
    pub open spec fn nan(self) -> bool {
        self.magnitude() > INFINITY_BITS
    }

    /// The number this stands for, in units of two to the power of -1074. Both
    /// zeros have the value 0.
    #[verifier::opaque]
    pub open spec fn value(self) -> int {
        if self.negative() {
            -scaled_magnitude(self.magnitude())
        } else {
            scaled_magnitude(self.magnitude())
        }
    }

    /// Whether this is a finite number.
    pub open spec fn finite(self) -> bool {
        self.magnitude() < INFINITY_BITS
    }

    /// Whether `self < other`: never with a NaN on either side.
    pub open spec fn below(self, other: Double) -> bool {
        !self.nan() && !other.nan() && self.value() < other.value()
    }

    /// Whether two numbers are equal: the same, or both a zero, of either sign.
    pub open spec fn same_number(self, other: Double) -> bool {
        self == other || !self.nan() && !other.nan() && self.value() == 0 && other.value() == 0
    }

    /// The smaller of two numbers, or the other one where one is a NaN.
    pub open spec fn lesser(self, other: Double) -> Double {
        if self.nan() || other.below(self) {
            other
        } else {
            self
        }
    }

    /// Whether this is no number.
    pub fn is_nan(self) -> (r: bool)
        ensures
            r == self.nan(),
    {
        let magnitude: u64 = if self.bits >= SIGN_BIT {
            self.bits - SIGN_BIT
        } else {
            self.bits
        };
        magnitude > INFINITY_BITS
    }

    /// Whether `self < other`, in the order of floating-point numbers.
    pub fn is_below(self, other: Double) -> (r: bool)
        ensures
            r == self.below(other),
    {
        if self.is_nan() || other.is_nan() {
            return false;
        }
        proof {
            reveal(Double::value);
            lemma_magnitude_order(self.magnitude(), other.magnitude());
            lemma_magnitude_order(other.magnitude(), self.magnitude());
            lemma_magnitude_order(0, self.magnitude());
            lemma_magnitude_order(0, other.magnitude());
        }
        if self.bits >= SIGN_BIT {
            if other.bits >= SIGN_BIT {
                self.bits > other.bits
            } else {
                self.bits > SIGN_BIT || other.bits > 0
            }
        } else {
            other.bits < SIGN_BIT && self.bits < other.bits
        }
    }

    /// The smaller of two numbers, or the other one where one is a NaN.
    pub fn at_most(self, other: Double) -> (r: Double)
        ensures
            r == self.lesser(other),
    {
        if self.is_nan() || other.is_below(self) {
            other
        } else {
            self
        }
    }

    /// 0.0.
    pub fn zero() -> (r: Double)
        ensures
            r == (Double { bits: ZERO_BITS }),
    {
        Double { bits: ZERO_BITS }
    }
}

/// A larger magnitude stands for a larger number, and the magnitude 0 for 0.
pub proof fn lemma_magnitude_order(m: int, n: int)
    requires
        0 <= m,
        0 <= n,
    ensures
        scaled_magnitude(0) == 0,
        m < n ==> scaled_magnitude(m) < scaled_magnitude(n),
{
    if m < n {
        let em = m / 0x10_0000_0000_0000;
        let fm = m % 0x10_0000_0000_0000;
        let en = n / 0x10_0000_0000_0000;
        let fn_ = n % 0x10_0000_0000_0000;
        let one: int = 0x10_0000_0000_0000;
        if en == 0 {
        } else {
            let wn = pow2((en - 1) as nat) as int;
            lemma_pow2_pos((en - 1) as nat);
            assert((one + fn_) * wn >= one * wn) by (nonlinear_arith)
                requires
                    fn_ >= 0,
                    wn > 0,
            ;
            assert(one * wn >= one) by (nonlinear_arith)
                requires
                    wn > 0,
                    one > 0,
            ;
            if em == 0 {
            } else {
                let wm = pow2((em - 1) as nat) as int;
                lemma_pow2_pos((em - 1) as nat);
                if em == en {
                    assert((one + fm) * wm < (one + fn_) * wm) by (nonlinear_arith)
                        requires
                            fm < fn_,
                            wm > 0,
                    ;
                } else {
                    lemma_pow2_unfold(em as nat);
                    if em < en - 1 {
                        lemma_pow2_strictly_increases(em as nat, (en - 1) as nat);
                    }
                    assert(2 * wm <= wn);
                    assert((one + fm) * wm < one * wn) by (nonlinear_arith)
                        requires
                            fm < one,
                            one > 0,
                            2 * wm <= wn,
                            wm > 0,
                    ;
                }
            }
        }
    }
}

/// The named bit patterns stand for the numbers they are named after: 0, 2, 99
/// and 100 in units of two to the power of -1074.
pub proof fn lemma_named_numbers()
    ensures
        (Double { bits: ZERO_BITS }).value() == 0,
        (Double { bits: TWO_BITS }).value() == 2 * pow2(1074),
        (Double { bits: NINETY_NINE_BITS }).value() == 99 * pow2(1074),
        (Double { bits: HUNDRED_BITS }).value() == 100 * pow2(1074),
        (Double { bits: NAN_BITS }).nan(),
{
    reveal(Double::value);
    lemma_pow2_adds(1023, 51);
    lemma_pow2_adds(5, 1023);
    lemma_pow2_adds(32, 19);
    vstd::arithmetic::power2::lemma2_to64();
    let w = pow2(1023) as int;
    assert(pow2(1028) == 32 * w);
    assert(pow2(51) == 0x8_0000_0000_0000) by (nonlinear_arith)
        requires
            pow2(51) == pow2(32) * pow2(19),
            pow2(32) == 0x1_0000_0000,
            pow2(19) == 0x8_0000,
    ;
    assert(pow2(1074) == 0x8_0000_0000_0000 * w) by (nonlinear_arith)
        requires
            pow2(1074) == w * pow2(51),
            pow2(51) == 0x8_0000_0000_0000,
    ;
    assert(scaled_magnitude(0x4000_0000_0000_0000) == 0x10_0000_0000_0000 * w);
    assert(0x10_0000_0000_0000 * w == 2 * (0x8_0000_0000_0000 * w)) by (nonlinear_arith);
    assert(scaled_magnitude(0x4058_c000_0000_0000) == (0x10_0000_0000_0000 + 0x8_c000_0000_0000) * (
    32 * w));
    assert((0x10_0000_0000_0000 + 0x8_c000_0000_0000) * (32 * w) == 99 * (0x8_0000_0000_0000 * w))
        by (nonlinear_arith);
    assert(scaled_magnitude(0x4059_0000_0000_0000) == (0x10_0000_0000_0000 + 0x9_0000_0000_0000) * (
    32 * w));
    assert((0x10_0000_0000_0000 + 0x9_0000_0000_0000) * (32 * w) == 100 * (0x8_0000_0000_0000 * w))
        by (nonlinear_arith);
}

/// The order of numbers is decided for any two that are no NaN: exactly one of
/// "below", "above" and "of the same value" holds.
pub proof fn lemma_order_total(a: Double, b: Double)
    requires
        !a.nan(),
        !b.nan(),
    ensures
        a.below(b) || b.below(a) || a.value() == b.value(),
        !(a.below(b) && b.below(a)),
        a.value() == b.value() ==> !a.below(b) && !b.below(a),
{
}

/// Numbers of the same value are equal: only the two zeros share one.
pub proof fn lemma_value_identifies(a: Double, b: Double)
    requires
        !a.nan(),
        !b.nan(),
        a.value() == b.value(),
    ensures
        a.same_number(b),
{
    reveal(Double::value);
    lemma_magnitude_order(a.magnitude(), b.magnitude());
    lemma_magnitude_order(b.magnitude(), a.magnitude());
    lemma_magnitude_order(0, a.magnitude());
    lemma_magnitude_order(0, b.magnitude());
}

} // verus!
