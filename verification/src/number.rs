//! 64-bit IEEE 754 numbers held by their bit patterns, and their order.

use vstd::prelude::*;
use vstd::arithmetic::power2::{pow2, lemma_pow2_pos, lemma_pow2_unfold};

verus! {

/// The sign bit; a pattern at or above it stands for a negative number.
pub const SIGN: u64 = 0x8000_0000_0000_0000;

/// The pattern of positive infinity; a larger magnitude is not a number.
pub const INFINITY: u64 = 0x7ff0_0000_0000_0000;

/// The pattern of negative infinity.
pub const NEG_INFINITY: u64 = 0xfff0_0000_0000_0000;

/// One past the largest fraction field.
pub const FRACTION_RANGE: u64 = 0x0010_0000_0000_0000;

/// The pattern of `1.0`.
pub const ONE: u64 = 0x3ff0_0000_0000_0000;

/// The pattern of `-1.0`.
pub const MINUS_ONE: u64 = 0xbff0_0000_0000_0000;

/// A 64-bit floating point number, by its bit pattern.
///
/// Arithmetic is done by whoever holds the hardware value; the order of two
/// numbers and everything that follows from it is decided here.
#[derive(Clone, Copy, Debug, PartialEq, Eq, Structural)]
pub struct Number {
    pub bits: u64,
}

/// The number with magnitude pattern `m`, in units of the least positive
/// number (2 to the power -1074). Meant for finite magnitudes.
pub open spec fn scaled(m: int) -> int {
    let exponent = m / FRACTION_RANGE as int;
    let fraction = m % FRACTION_RANGE as int;
    if exponent <= 0 {
        fraction
    } else {
        (FRACTION_RANGE + fraction) * pow2((exponent - 1) as nat)
    }
}

impl Number {
    pub open spec fn negative(self) -> bool {
        self.bits >= SIGN
    }

    /// The pattern without its sign bit.
    pub open spec fn magnitude(self) -> int {
        if self.negative() {
            self.bits - SIGN
        } else {
            self.bits as int
        }
    }

    pub open spec fn nan(self) -> bool {
        self.magnitude() > INFINITY
    }

    pub open spec fn infinite(self) -> bool {
        self.magnitude() == INFINITY
    }

    pub open spec fn finite(self) -> bool {
        self.magnitude() < INFINITY
    }

    /// The place of a number in the order of all numbers; both zeros are at 0.
    pub open spec fn rank(self) -> int {
        if self.negative() {
            -self.magnitude()
        } else {
            self.magnitude()
        }
    }

    /// The value of a finite number, in units of 2 to the power -1074.
    pub open spec fn value(self) -> int {
        if self.negative() {
            -scaled(self.magnitude())
        } else {
            scaled(self.magnitude())
        }
    }

    /// `self < other`: false where either is not a number.
    pub open spec fn less(self, other: Number) -> bool {
        !self.nan() && !other.nan() && self.rank() < other.rank()
    }

    /// `self <= other`: false where either is not a number.
    pub open spec fn at_most(self, other: Number) -> bool {
        !self.nan() && !other.nan() && self.rank() <= other.rank()
    }

    /// `self == other` as numbers: the zeros are equal, nothing equals a NaN.
    pub open spec fn same_number(self, other: Number) -> bool {
        !self.nan() && !other.nan() && self.rank() == other.rank()
    }

    /// The smaller of two numbers; a NaN gives way to the other one.
    pub open spec fn lower_of(self, other: Number) -> Number {
        if self.nan() || other.less(self) {
            other
        } else {
            self
        }
    }

    /// The larger of two numbers; a NaN gives way to the other one.
    pub open spec fn upper_of(self, other: Number) -> Number {
        if self.nan() || self.less(other) {
            other
        } else {
            self
        }
    }

    pub fn is_nan(self) -> (r: bool)
        ensures
            r == self.nan(),
            r == (INFINITY < self.bits < SIGN || self.bits > NEG_INFINITY),
    {
        if self.bits >= SIGN {
            self.bits - SIGN > INFINITY
        } else {
            self.bits > INFINITY
        }
    }

    pub fn is_infinite(self) -> (r: bool)
        ensures
            r == self.infinite(),
            r == (self.bits == INFINITY || self.bits == NEG_INFINITY),
    {
        self.bits == INFINITY || self.bits == NEG_INFINITY
    }

    pub fn lt(self, other: Number) -> (r: bool)
        ensures
            r == self.less(other),
    {
        if self.is_nan() || other.is_nan() {
            false
        } else if self.bits >= SIGN {
            if other.bits >= SIGN {
                other.bits < self.bits
            } else {
                self.bits > SIGN || other.bits > 0
            }
        } else if other.bits >= SIGN {
            false
        } else {
            self.bits < other.bits
        }
    }

    pub fn le(self, other: Number) -> (r: bool)
        ensures
            r == self.at_most(other),
    {
        !self.is_nan() && !other.is_nan() && !other.lt(self)
    }

    pub fn equals(self, other: Number) -> (r: bool)
        ensures
            r == self.same_number(other),
    {
        self.le(other) && other.le(self)
    }

    pub fn min(self, other: Number) -> (r: Number)
        ensures
            r == self.lower_of(other),
            r == self || r == other,
            !self.nan() ==> !r.nan() && !self.less(r),
            !other.nan() ==> !r.nan() && !other.less(r),
    {
        if self.is_nan() || other.lt(self) {
            other
        } else {
            self
        }
    }

    pub fn max(self, other: Number) -> (r: Number)
        ensures
            r == self.upper_of(other),
            r == self || r == other,
            !self.nan() ==> !r.nan() && !r.less(self),
            !other.nan() ==> !r.nan() && !r.less(other),
    {
        if self.is_nan() || self.lt(other) {
            other
        } else {
            self
        }
    }
}

/// A larger magnitude pattern stands for a larger number.
pub proof fn scaled_increases(a: int, b: int)
    requires
        0 <= a < b,
    ensures
        0 <= scaled(a) < scaled(b),
{
    let range = FRACTION_RANGE as int;
    let (ea, fa) = (a / range, a % range);
    let (eb, fb) = (b / range, b % range);
    assert(a == ea * range + fa && b == eb * range + fb);
    assert(ea <= eb);
    if ea <= 0 {
        if eb > 0 {
            lemma_pow2_pos((eb - 1) as nat);
            let p = pow2((eb - 1) as nat) as int;
            assert((range + fb) * p >= range) by (nonlinear_arith)
                requires
                    p >= 1,
                    range > 0,
                    fb >= 0,
            ;
        }
    } else {
        lemma_pow2_pos((ea - 1) as nat);
        let pa = pow2((ea - 1) as nat) as int;
        assert((range + fa) * pa >= 0) by (nonlinear_arith)
            requires
                range > 0,
                fa >= 0,
                pa > 0,
        ;
        if ea == eb {
            assert((range + fa) * pa < (range + fb) * pa) by (nonlinear_arith)
                requires
                    fa < fb,
                    pa > 0,
            ;
        } else {
            let pb = pow2((eb - 1) as nat) as int;
            pow2_doubles(ea - 1, eb - 1);
            assert((range + fa) * pa < (range + fb) * pb) by (nonlinear_arith)
                requires
                    0 <= fa < range,
                    0 <= fb,
                    pa > 0,
                    pb >= 2 * pa,
            ;
        }
    }
}

proof fn pow2_doubles(i: int, j: int)
    requires
        0 <= i < j,
    ensures
        pow2(j as nat) >= 2 * pow2(i as nat),
    decreases j,
{
    lemma_pow2_unfold(j as nat);
    if i < j - 1 {
        pow2_doubles(i, j - 1);
    }
}

/// The order decided on bit patterns is the order of the numbers they stand
/// for.
pub proof fn order_is_numeric(a: Number, b: Number)
    requires
        a.finite(),
        b.finite(),
    ensures
        a.less(b) <==> a.value() < b.value(),
        a.at_most(b) <==> a.value() <= b.value(),
        a.same_number(b) <==> a.value() == b.value(),
{
    let (m, n) = (a.magnitude(), b.magnitude());
    assert(scaled(0) == 0);
    if m > 0 {
        scaled_increases(0, m);
    }
    if n > 0 {
        scaled_increases(0, n);
    }
    if m < n {
        scaled_increases(m, n);
    } else if n < m {
        scaled_increases(n, m);
    }
}

/// A number is on one side of another or equal to it, and what is not a number
/// is on none.
pub proof fn numbers_are_in_order(a: Number, b: Number)
    ensures
        a.nan() || b.nan() ==> !a.less(b) && !a.at_most(b) && !a.same_number(b),
        !a.nan() && !b.nan() ==> a.less(b) || b.less(a) || a.same_number(b),
        a.less(b) ==> !b.less(a) && !a.same_number(b),
        a.at_most(b) <==> a.less(b) || a.same_number(b),
        a.nan() || a.infinite() || a.finite(),
        !(a.nan() && a.infinite()) && !(a.nan() && a.finite()) && !(a.infinite() && a.finite()),
        a.finite() && a.negative() ==> a.value() <= 0,
        a.finite() && !a.negative() ==> a.value() >= 0,
{
    assert(scaled(0) == 0);
    if a.finite() && a.magnitude() > 0 {
        scaled_increases(0, a.magnitude());
    }
}

/// Neither of two numbers is below the lower of them or above the upper, each of
/// which is one of the two.
pub proof fn lower_and_upper(a: Number, b: Number)
    ensures
        a.lower_of(b) == a || a.lower_of(b) == b,
        a.upper_of(b) == a || a.upper_of(b) == b,
        !a.nan() ==> a.lower_of(b).at_most(a) && a.at_most(a.upper_of(b)),
        !b.nan() ==> a.lower_of(b).at_most(b) && b.at_most(a.upper_of(b)),
{
}

/// Every finite number lies between the infinities.
pub proof fn infinities_bound(a: Number)
    requires
        a.finite(),
    ensures
        a.less(Number { bits: INFINITY }),
        (Number { bits: NEG_INFINITY }).less(a),
{
}

} // verus!
