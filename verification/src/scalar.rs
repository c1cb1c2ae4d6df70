//! Measured quantities, carried by their IEEE 754 binary64 bit pattern.
//!
//! Every rule of this library that looks at a measured or computed quantity
//! only ever compares it, picks one of several, drops its sign or flips it.
//! All of that is exact on the bit pattern, so the library holds a quantity as
//! the integer that encodes it. Sums, products and angles are the caller's
//! business: the caller hands their results in.

use vstd::arithmetic::power2::{lemma_pow2_adds, lemma_pow2_pos, lemma_pow2_unfold, pow2};
use vstd::prelude::*;

verus! {

/// Weight of the sign bit.
pub const SIGN_WEIGHT: u64 = 0x8000_0000_0000_0000;

/// Pattern of positive infinity: a larger magnitude is not a number.
pub const INFINITY_BITS: u64 = 0x7ff0_0000_0000_0000;

/// Pattern of one.
pub const ONE_BITS: u64 = 0x3ff0_0000_0000_0000;

/// One quantity, by its binary64 bit pattern.
#[derive(Clone, Copy, PartialEq, Eq, Structural, Debug)]
pub struct Scalar {
    pub bits: u64,
}

/// A place on the chart, east and north.
pub type Point = (Scalar, Scalar);

impl Scalar {
    /// The pattern without its sign bit.
    pub open spec fn magnitude(self) -> int {
        self.bits as int % SIGN_WEIGHT as int
    }

    /// Whether the sign bit is set.
    pub open spec fn negative(self) -> bool {
        self.bits >= SIGN_WEIGHT
    }

    /// Whether the pattern encodes no number.
    pub open spec fn nan(self) -> bool {
        self.magnitude() > INFINITY_BITS
    }

    /// Place of the quantity in the order of all quantities. Both zeros share
    /// place zero.
    pub open spec fn rank(self) -> int {
        if self.negative() {
            -self.magnitude()
        } else {
            self.magnitude()
        }
    }

    /// Strictly below. False as soon as one side is not a number.
    pub open spec fn below(self, other: Scalar) -> bool {
        !self.nan() && !other.nan() && self.rank() < other.rank()
    }

    /// Below or equal. False as soon as one side is not a number.
    pub open spec fn at_most(self, other: Scalar) -> bool {
        !self.nan() && !other.nan() && self.rank() <= other.rank()
    }

    /// Numerically equal. False as soon as one side is not a number.
    pub open spec fn same(self, other: Scalar) -> bool {
        !self.nan() && !other.nan() && self.rank() == other.rank()
    }

    /// The larger of two quantities. A side that is not a number yields to the
    /// other one; of two equal ones the first is taken.
    pub open spec fn larger(self, other: Scalar) -> Scalar {
        if self.nan() || self.below(other) {
            other
        } else {
            self
        }
    }

    /// The smaller of two quantities. A side that is not a number yields to the
    /// other one; of two equal ones the first is taken.
    pub open spec fn smaller(self, other: Scalar) -> Scalar {
        if self.nan() || other.below(self) {
            other
        } else {
            self
        }
    }

    /// The quantity held between two limits. What is not a number stays so.
    pub open spec fn limited(self, lo: Scalar, hi: Scalar) -> Scalar {
        if self.below(lo) {
            lo
        } else if hi.below(self) {
            hi
        } else {
            self
        }
    }

    /// The quantity without its sign.
    pub open spec fn unsigned(self) -> Scalar {
        Scalar { bits: self.magnitude() as u64 }
    }

    /// The quantity with the other sign.
    pub open spec fn flipped(self) -> Scalar {
        if self.negative() {
            Scalar { bits: (self.bits - SIGN_WEIGHT) as u64 }
        } else {
            Scalar { bits: (self.bits + SIGN_WEIGHT) as u64 }
        }
    }

    /// Positive zero.
    pub fn zero() -> (r: Scalar)
        ensures
            r == (Scalar { bits: 0 }),
    {
        Scalar { bits: 0 }
    }

    /// One.
    pub fn one() -> (r: Scalar)
        ensures
            r == (Scalar { bits: ONE_BITS }),
    {
        Scalar { bits: ONE_BITS }
    }

    /// Whether the pattern encodes no number.
    pub fn is_nan(self) -> (r: bool)
        ensures
            r == self.nan(),
    {
        self.bits % SIGN_WEIGHT > INFINITY_BITS
    }

    fn place(self) -> (r: i64)
        ensures
            r == self.rank(),
    {
        let m: u64 = self.bits % SIGN_WEIGHT;
        let p: i64 = m as i64;
        if self.bits >= SIGN_WEIGHT {
            -p
        } else {
            p
        }
    }

    /// `self < other`.
    pub fn lt(self, other: Scalar) -> (r: bool)
        ensures
            r == self.below(other),
    {
        !self.is_nan() && !other.is_nan() && self.place() < other.place()
    }

    /// `self <= other`.
    pub fn le(self, other: Scalar) -> (r: bool)
        ensures
            r == self.at_most(other),
    {
        !self.is_nan() && !other.is_nan() && self.place() <= other.place()
    }

    /// `self > other`.
    pub fn gt(self, other: Scalar) -> (r: bool)
        ensures
            r == other.below(self),
    {
        other.lt(self)
    }

    /// `self >= other`.
    pub fn ge(self, other: Scalar) -> (r: bool)
        ensures
            r == other.at_most(self),
    {
        other.le(self)
    }

    /// Numerical equality.
    pub fn equals(self, other: Scalar) -> (r: bool)
        ensures
            r == self.same(other),
    {
        !self.is_nan() && !other.is_nan() && self.place() == other.place()
    }

    /// The larger of two quantities.
    pub fn max(self, other: Scalar) -> (r: Scalar)
        ensures
            r == self.larger(other),
    {
        if self.is_nan() || self.lt(other) {
            other
        } else {
            self
        }
    }

    /// The smaller of two quantities.
    pub fn min(self, other: Scalar) -> (r: Scalar)
        ensures
            r == self.smaller(other),
    {
        if self.is_nan() || other.lt(self) {
            other
        } else {
            self
        }
    }

    /// The quantity held between two limits.
    pub fn clamp(self, lo: Scalar, hi: Scalar) -> (r: Scalar)
        requires
            lo.at_most(hi),
        ensures
            r == self.limited(lo, hi),
    {
        if self.lt(lo) {
            lo
        } else if self.gt(hi) {
            hi
        } else {
            self
        }
    }

    /// The quantity without its sign.
    pub fn abs(self) -> (r: Scalar)
        ensures
            r == self.unsigned(),
    {
        Scalar { bits: self.bits % SIGN_WEIGHT }
    }

    /// The quantity with the other sign.
    pub fn neg(self) -> (r: Scalar)
        ensures
            r == self.flipped(),
    {
        if self.bits >= SIGN_WEIGHT {
            Scalar { bits: self.bits - SIGN_WEIGHT }
        } else {
            Scalar { bits: self.bits + SIGN_WEIGHT }
        }
    }
}

/// Strictly below is an order: nothing is below itself, and it carries over.
pub proof fn law_below_is_an_order(a: Scalar, b: Scalar, c: Scalar)
    ensures
        !a.below(a),
        a.below(b) && b.below(c) ==> a.below(c),
        a.below(b) ==> !b.at_most(a),
        !a.nan() && !b.nan() ==> a.below(b) || b.below(a) || a.same(b),
{
}

/// What is not a number compares with nothing.
pub proof fn law_not_a_number_compares_with_nothing(a: Scalar, b: Scalar)
    requires
        a.nan(),
    ensures
        !a.below(b) && !b.below(a),
        !a.at_most(b) && !b.at_most(a),
        !a.same(b),
{
}

/// The larger of two numbers is one of them and below neither; the smaller is
/// one of them and above neither.
pub proof fn law_larger_and_smaller(a: Scalar, b: Scalar)
    requires
        !a.nan(),
        !b.nan(),
    ensures
        a.larger(b) == a || a.larger(b) == b,
        a.at_most(a.larger(b)) && b.at_most(a.larger(b)),
        a.smaller(b) == a || a.smaller(b) == b,
        a.smaller(b).at_most(a) && a.smaller(b).at_most(b),
{
}

/// Flipping the sign twice gives the quantity back, and turns the order around.
pub proof fn law_flipping_turns_the_order(a: Scalar, b: Scalar)
    ensures
        a.flipped().flipped() == a,
        a.below(b) == b.flipped().below(a.flipped()),
        a.unsigned() == a.flipped().unsigned(),
{
}

/// What is held between two limits lies between them, and what lies between
/// them is left alone.
pub proof fn law_limited_lies_between(a: Scalar, lo: Scalar, hi: Scalar)
    requires
        !a.nan(),
        lo.at_most(hi),
    ensures
        lo.at_most(a.limited(lo, hi)),
        a.limited(lo, hi).at_most(hi),
        lo.at_most(a) && a.at_most(hi) ==> a.limited(lo, hi) == a,
{
}

/// Holding two quantities between the same limits keeps their order.
pub proof fn law_limiting_keeps_order(a: Scalar, b: Scalar, lo: Scalar, hi: Scalar)
    requires
        a.at_most(b),
        lo.at_most(hi),
    ensures
        a.limited(lo, hi).at_most(b.limited(lo, hi)),
{
}

/// The value of a finite pattern in units of the smallest positive one: the
/// stored fraction, with the leading one of a normal number, times the power
/// of two of its exponent.
pub open spec fn value(v: Scalar) -> int {
    let m = v.magnitude();
    let fraction = m % 0x10_0000_0000_0000;
    let exponent = m / 0x10_0000_0000_0000;
    let size = if exponent == 0 {
        fraction
    } else {
        (0x10_0000_0000_0000 + fraction) * pow2((exponent - 1) as nat)
    };
    if v.negative() {
        -size
    } else {
        size
    }
}

proof fn lemma_sizes_follow_magnitudes(a: Scalar, b: Scalar)
    requires
        !a.negative(),
        !b.negative(),
        a.magnitude() < b.magnitude(),
    ensures
        0 <= value(a) < value(b),
{
    let unit: int = 0x10_0000_0000_0000;
    let (ma, mb) = (a.magnitude(), b.magnitude());
    let (fa, fb) = (ma % unit, mb % unit);
    let (ea, eb) = (ma / unit, mb / unit);
    assert(ma == ea * unit + fa && mb == eb * unit + fb) by (nonlinear_arith)
        requires
            unit == 0x10_0000_0000_0000,
            fa == ma % unit,
            fb == mb % unit,
            ea == ma / unit,
            eb == mb / unit,
    ;
    assert(ea <= eb) by (nonlinear_arith)
        requires
            ma == ea * unit + fa,
            mb == eb * unit + fb,
            ma < mb,
            0 <= fa < unit,
            0 <= fb < unit,
    ;
    if ea == eb {
        if ea > 0 {
            let p = pow2((ea - 1) as nat) as int;
            lemma_pow2_pos((ea - 1) as nat);
            assert((unit + fa) * p < (unit + fb) * p) by (nonlinear_arith)
                requires
                    fa < fb,
                    p > 0,
            ;
            assert(0 <= (unit + fa) * p) by (nonlinear_arith)
                requires
                    0 <= fa,
                    unit > 0,
                    p > 0,
            ;
        }
    } else {
        let q = pow2((eb - 1) as nat) as int;
        lemma_pow2_pos((eb - 1) as nat);
        if ea == 0 {
            assert(fa < (unit + fb) * q) by (nonlinear_arith)
                requires
                    fa < unit,
                    0 <= fb,
                    q >= 1,
                    unit > 0,
            ;
        } else {
            let p = pow2((ea - 1) as nat) as int;
            let d = pow2((eb - ea) as nat) as int;
            lemma_pow2_pos((ea - 1) as nat);
            lemma_pow2_adds((ea - 1) as nat, (eb - ea) as nat);
            lemma_pow2_pos((eb - ea - 1) as nat);
            lemma_pow2_unfold((eb - ea) as nat);
            assert(q == p * d);
            assert(d >= 2);
            assert((unit + fa) * p < (unit + fb) * q) by (nonlinear_arith)
                requires
                    q == p * d,
                    d >= 2,
                    p > 0,
                    0 <= fa < unit,
                    0 <= fb,
            ;
            assert(0 <= (unit + fa) * p) by (nonlinear_arith)
                requires
                    0 <= fa,
                    unit > 0,
                    p > 0,
            ;
        }
    }
}

/// The order of patterns is the order of the values that they encode.
pub proof fn law_order_is_that_of_values(a: Scalar, b: Scalar)
    requires
        a.magnitude() < INFINITY_BITS,
        b.magnitude() < INFINITY_BITS,
    ensures
        a.below(b) == (value(a) < value(b)),
        a.same(b) == (value(a) == value(b)),
{
    let x = a.unsigned();
    let y = b.unsigned();
    assert(x.magnitude() == a.magnitude() && y.magnitude() == b.magnitude());
    let zero = Scalar { bits: 0 };
    if x.magnitude() > 0 {
        lemma_sizes_follow_magnitudes(zero, x);
    }
    if y.magnitude() > 0 {
        lemma_sizes_follow_magnitudes(zero, y);
    }
    if x.magnitude() < y.magnitude() {
        lemma_sizes_follow_magnitudes(x, y);
    }
    if y.magnitude() < x.magnitude() {
        lemma_sizes_follow_magnitudes(y, x);
    }
}

/// Sign of a quantity as minus one, zero or one: zero for either zero, and
/// minus one for what is not a number.
pub open spec fn sign_spec(v: Scalar) -> Scalar {
    let zero = Scalar { bits: 0 };
    if v.same(zero) {
        zero
    } else if zero.below(v) {
        Scalar { bits: ONE_BITS }
    } else {
        Scalar { bits: ONE_BITS }.flipped()
    }
}

/// Sign of a quantity as minus one, zero or one.
pub fn sign(v: Scalar) -> (r: Scalar)
    ensures
        r == sign_spec(v),
{
    if v.equals(Scalar::zero()) {
        Scalar::zero()
    } else if v.gt(Scalar::zero()) {
        Scalar::one()
    } else {
        Scalar::one().neg()
    }
}

/// A quantity without its sign is the quantity itself or the quantity flipped,
/// and is not below zero.
pub proof fn law_unsigned_drops_the_sign(a: Scalar)
    requires
        !a.nan(),
    ensures
        (Scalar { bits: 0 }).at_most(a.unsigned()),
        (Scalar { bits: 0 }).below(a) ==> a.unsigned() == a && a.flipped().below(
            Scalar { bits: 0 },
        ),
        a.below(Scalar { bits: 0 }) ==> a.unsigned() == a.flipped() && (Scalar { bits: 0 }).below(
            a.flipped(),
        ),
{
}

/// The sign of a number is one above zero, minus one below it, and zero at it.
pub proof fn law_sign_tells_the_side_of_zero(v: Scalar)
    requires
        !v.nan(),
    ensures
        (Scalar { bits: 0 }).below(v) ==> sign_spec(v) == (Scalar { bits: ONE_BITS }),
        v.below(Scalar { bits: 0 }) ==> sign_spec(v) == (Scalar { bits: ONE_BITS }).flipped(),
        v.same(Scalar { bits: 0 }) ==> sign_spec(v) == (Scalar { bits: 0 }),
{
}

} // verus!
