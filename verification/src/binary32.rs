//! Single-precision floating-point numbers.

use crate::binary::{Format, Parts};
use crate::binary;
use vstd::prelude::*;

verus! {

/// The 32-bit interchange format: 24 digits, smallest positive number
/// `2^-149`.
pub open spec fn format() -> Format {
    Format { digits: 24, hidden: 0x80_0000, top: 0x7f80_0000, unit: 149 }
}

pub(crate) proof fn lemma_format()
    ensures
        format().valid(),
{
    vstd::arithmetic::power2::lemma2_to64();
    vstd::arithmetic::power2::lemma2_to64_rest();
}

pub(crate) fn layout() -> (f: Format)
    ensures
        f == format(),
        f.valid(),
{
    proof {
        lemma_format();
    }
    Format { digits: 24, hidden: 0x80_0000, top: 0x7f80_0000, unit: 149 }
}

/// A single-precision number, held by its bits. `==` compares bits; numbers
/// are compared with the methods below.
#[derive(Clone, Copy, Debug, PartialEq, Eq, Structural)]
pub struct Binary32 {
    pub bits: u32,
}

impl Binary32 {
    /// Sign and pattern.
    pub open spec fn parts(self) -> Parts {
        Parts { negative: self.bits >= 0x8000_0000, pattern: (self.bits % 0x8000_0000) as u64 }
    }

    /// The number with the given sign and pattern.
    pub open spec fn of(p: Parts) -> Binary32 {
        Binary32 {
            bits: if p.negative {
                (p.pattern + 0x8000_0000) as u32
            } else {
                p.pattern as u32
            },
        }
    }

    pub open spec fn nan(self) -> bool {
        self.parts().nan(format())
    }

    pub open spec fn finite(self) -> bool {
        self.parts().finite(format())
    }

    /// The number itself, counted in units of the smallest positive one.
    pub open spec fn units(self) -> int {
        self.parts().units(format())
    }

    #[verifier::opaque]
    pub open spec fn negation(self) -> Binary32 {
        let p = self.parts();
        Binary32::of(Parts { negative: !p.negative, pattern: p.pattern })
    }

    #[verifier::opaque]
    pub open spec fn absolute(self) -> Binary32 {
        Binary32::of(Parts { negative: false, pattern: self.parts().pattern })
    }

    #[verifier::opaque]
    pub open spec fn sum(self, other: Binary32) -> Binary32 {
        Binary32::of(binary::sum(format(), self.parts(), other.parts()))
    }

    pub open spec fn difference(self, other: Binary32) -> Binary32 {
        self.sum(other.negation())
    }

    #[verifier::opaque]
    pub open spec fn product(self, other: Binary32) -> Binary32 {
        Binary32::of(binary::product(format(), self.parts(), other.parts()))
    }

    #[verifier::opaque]
    pub open spec fn quotient(self, other: Binary32) -> Binary32 {
        Binary32::of(binary::quotient(format(), self.parts(), other.parts()))
    }

    #[verifier::opaque]
    pub open spec fn root(self) -> Binary32 {
        Binary32::of(binary::root(format(), self.parts()))
    }

    /// `self < other`; false where one of them is not a number.
    #[verifier::opaque]
    pub open spec fn lt(self, other: Binary32) -> bool {
        binary::less(format(), self.parts(), other.parts())
    }

    /// `self <= other`; false where one of them is not a number.
    #[verifier::opaque]
    pub open spec fn le(self, other: Binary32) -> bool {
        binary::at_most(format(), self.parts(), other.parts())
    }

    /// The larger of two numbers; where one is not a number, the other.
    pub open spec fn larger(self, other: Binary32) -> Binary32 {
        if self.nan() || self.lt(other) {
            other
        } else {
            self
        }
    }

    /// The smaller of two numbers; where one is not a number, the other.
    pub open spec fn smaller(self, other: Binary32) -> Binary32 {
        if self.nan() || other.lt(self) {
            other
        } else {
            self
        }
    }

    /// `self` held between two bounds.
    pub open spec fn clamped(self, low: Binary32, high: Binary32) -> Binary32 {
        if self.lt(low) {
            low
        } else if high.lt(self) {
            high
        } else {
            self
        }
    }

    /// The number nearest to a whole one.
    #[verifier::opaque]
    pub open spec fn whole(n: nat) -> Binary32 {
        Binary32::of(
            binary::rounded(
                format(),
                false,
                n * vstd::arithmetic::power2::pow2(format().unit as nat),
                1,
            ),
        )
    }

    pub(crate) fn split(self) -> (p: Parts)
        ensures
            p == self.parts(),
    {
        Parts { negative: self.bits >= 0x8000_0000, pattern: (self.bits % 0x8000_0000) as u64 }
    }

    pub(crate) fn join(p: Parts) -> (r: Binary32)
        requires
            p.pattern < 0x8000_0000,
        ensures
            r == Binary32::of(p),
    {
        if p.negative {
            Binary32 { bits: p.pattern as u32 + 0x8000_0000 }
        } else {
            Binary32 { bits: p.pattern as u32 }
        }
    }

    pub fn is_nan(self) -> (r: bool)
        ensures
            r == self.nan(),
    {
        self.bits % 0x8000_0000 > 0x7f80_0000
    }

    pub fn is_finite(self) -> (r: bool)
        ensures
            r == self.finite(),
    {
        self.bits % 0x8000_0000 < 0x7f80_0000
    }

    /// `-self`.
    pub fn negate(self) -> (r: Binary32)
        ensures
            r == self.negation(),
    {
        proof {
            reveal(Binary32::negation);
        }
        let p: Parts = self.split();
        Binary32::join(Parts { negative: !p.negative, pattern: p.pattern })
    }

    /// `|self|`.
    pub fn magnitude(self) -> (r: Binary32)
        ensures
            r == self.absolute(),
    {
        proof {
            reveal(Binary32::absolute);
        }
        Binary32 { bits: self.bits % 0x8000_0000 }
    }

    /// `self + other`.
    pub fn plus(self, other: Binary32) -> (r: Binary32)
        ensures
            r == self.sum(other),
    {
        proof {
            reveal(Binary32::sum);
        }
        Binary32::join(self.split().plus(layout(), other.split()))
    }

    /// `self - other`.
    pub fn minus(self, other: Binary32) -> (r: Binary32)
        ensures
            r == self.difference(other),
    {
        self.plus(other.negate())
    }

    /// `self * other`.
    pub fn times(self, other: Binary32) -> (r: Binary32)
        ensures
            r == self.product(other),
    {
        proof {
            reveal(Binary32::product);
        }
        Binary32::join(self.split().times(layout(), other.split()))
    }

    /// `self / other`.
    pub fn over(self, other: Binary32) -> (r: Binary32)
        ensures
            r == self.quotient(other),
    {
        proof {
            reveal(Binary32::quotient);
        }
        Binary32::join(self.split().over(layout(), other.split()))
    }

    /// The square root.
    pub fn square_root(self) -> (r: Binary32)
        ensures
            r == self.root(),
    {
        proof {
            reveal(Binary32::root);
        }
        Binary32::join(self.split().square_root(layout()))
    }

    /// `self < other`.
    pub fn less(self, other: Binary32) -> (r: bool)
        ensures
            r == self.lt(other),
    {
        proof {
            reveal(Binary32::lt);
        }
        self.split().is_less(layout(), other.split())
    }

    /// `self <= other`.
    pub fn at_most(self, other: Binary32) -> (r: bool)
        ensures
            r == self.le(other),
    {
        proof {
            reveal(Binary32::le);
        }
        self.split().is_at_most(layout(), other.split())
    }

    /// The larger of two numbers; where one is not a number, the other.
    pub fn maximum(self, other: Binary32) -> (r: Binary32)
        ensures
            r == self.larger(other),
    {
        if self.is_nan() || self.less(other) {
            other
        } else {
            self
        }
    }

    /// The smaller of two numbers; where one is not a number, the other.
    pub fn minimum(self, other: Binary32) -> (r: Binary32)
        ensures
            r == self.smaller(other),
    {
        if self.is_nan() || other.less(self) {
            other
        } else {
            self
        }
    }

    /// `self` held between two bounds; what is not a number stays so.
    pub fn clamp(self, low: Binary32, high: Binary32) -> (r: Binary32)
        ensures
            r == self.clamped(low, high),
    {
        if self.less(low) {
            low
        } else if high.less(self) {
            high
        } else {
            self
        }
    }

    /// Whether `self` comes before `other` in the total order of all patterns.
    pub fn ranks_below(self, other: Binary32) -> (r: bool)
        ensures
            r == (binary::rank(self.parts()) < binary::rank(other.parts())),
    {
        self.split().ranks_below(other.split())
    }

    /// The number nearest to a whole one.
    pub fn from_count(n: u64) -> (r: Binary32)
        ensures
            r == Binary32::whole(n as nat),
    {
        proof {
            reveal(Binary32::whole);
        }
        Binary32::join(Parts::from_integer(layout(), n))
    }
}

/// Every number is what its parts say.
pub proof fn lemma_parts(a: Binary32)
    ensures
        Binary32::of(a.parts()) == a,
{
}

/// The bits of `1.0` stand for one.
pub proof fn lemma_one()
    ensures
        (Binary32 { bits: 0x3f80_0000 }).units() == vstd::arithmetic::power2::pow2(149),
{
    let h = 0x80_0000nat;
    lemma_format();
    crate::rounding::lemma_mag_parts(h, 126, h);
    assert(126 * h + h == 0x3f80_0000);
    vstd::arithmetic::power2::lemma2_to64();
    vstd::arithmetic::power2::lemma_pow2_adds(23, 126);
}

/// Adding a number to zero gives that number, unless it is the zero below
/// zero or not a number.
pub proof fn lemma_zero_plus(a: Binary32)
    requires
        !a.nan(),
        a.bits != 0x8000_0000,
    ensures
        (Binary32 { bits: 0 }).sum(a) == a,
{
    reveal(Binary32::sum);
    lemma_format();
    let f = format();
    let z = Binary32 { bits: 0 }.parts();
    let p = a.parts();
    crate::binary::lemma_order(f, p.pattern, p.pattern);
    if p.finite(f) {
        crate::rounding::lemma_representable(f.h(), f.inf(), p.pattern as nat, 1);
        assert(z.units(f) == 0);
        if p.pattern == 0 {
            assert(!p.negative);
        }
    }
    lemma_parts(a);
}

/// Multiplying by one changes no number.
pub proof fn lemma_times_one(a: Binary32)
    requires
        !a.nan(),
    ensures
        a.product(Binary32 { bits: 0x3f80_0000 }) == a,
{
    reveal(Binary32::product);
    lemma_format();
    let f = format();
    let p = a.parts();
    let one = Binary32 { bits: 0x3f80_0000 };
    lemma_one();
    assert(!one.parts().negative);
    if p.finite(f) {
        vstd::arithmetic::power2::lemma_pow2_pos(149);
        crate::rounding::lemma_representable(
            f.h(),
            f.inf(),
            p.pattern as nat,
            vstd::arithmetic::power2::pow2(149),
        );
    }
    lemma_parts(a);
}

/// The reciprocal of one is one.
pub proof fn lemma_one_over_one()
    ensures
        (Binary32 { bits: 0x3f80_0000 }).quotient(Binary32::whole(1)) == (Binary32 {
            bits: 0x3f80_0000,
        }),
{
    reveal(Binary32::quotient);
    reveal(Binary32::whole);
    lemma_format();
    lemma_one();
    let f = format();
    let one = Binary32 { bits: 0x3f80_0000 };
    let d = vstd::arithmetic::power2::pow2(149);
    vstd::arithmetic::power2::lemma_pow2_pos(149);
    crate::rounding::lemma_representable(f.h(), f.inf(), 0x3f80_0000, 1);
    assert(1 * d == d);
    assert(Binary32::whole(1) == one);
    crate::rounding::lemma_representable(f.h(), f.inf(), 0x3f80_0000, d);
}

/// Numbers that are numbers are totally ordered.
pub proof fn lemma_total(a: Binary32, b: Binary32, c: Binary32)
    requires
        !a.nan(),
        !b.nan(),
        !c.nan(),
    ensures
        a.lt(b) <==> !b.le(a),
        a.le(a),
        a.lt(b) ==> a.le(b),
        a.le(b) && b.le(c) ==> a.le(c),
        a.lt(b) && b.le(c) ==> a.lt(c),
        a.le(b) && b.lt(c) ==> a.lt(c),
{
    reveal(Binary32::lt);
    reveal(Binary32::le);
}

/// A count is a finite number, and not zero unless it counts nothing.
pub proof fn lemma_count(n: nat)
    requires
        n <= u64::MAX,
    ensures
        Binary32::whole(n).finite(),
        !Binary32::whole(n).parts().negative,
        n > 0 ==> Binary32::whole(n).parts().pattern > 0,
{
    reveal(Binary32::whole);
    lemma_format();
    let f = format();
    let h = 0x80_0000nat;
    let d = vstd::arithmetic::power2::pow2(149);
    vstd::arithmetic::power2::lemma2_to64();
    vstd::arithmetic::power2::lemma2_to64_rest();
    vstd::arithmetic::power2::lemma_pow2_pos(149);
    crate::rounding::lemma_mag_parts(h, 190, h);
    vstd::arithmetic::power2::lemma_pow2_adds(23, 190);
    vstd::arithmetic::power2::lemma_pow2_adds(64, 149);
    assert(190 * h + h == 0x5f80_0000);
    crate::rounding::lemma_representable(h, f.inf(), 0x5f80_0000, 1);
    assert(n * d <= 0x1_0000_0000_0000_0000 * d) by (nonlinear_arith)
        requires
            n <= 0x1_0000_0000_0000_0000,
            d > 0,
    ;
    crate::rounding::lemma_nearest_monotone(
        h,
        f.inf(),
        n * d,
        (0x1_0000_0000_0000_0000 * d) as nat,
        1,
    );
    if n > 0 {
        lemma_one();
        crate::rounding::lemma_representable(h, f.inf(), 0x3f80_0000, 1);
        assert(d <= n * d) by (nonlinear_arith)
            requires
                n >= 1,
                d > 0,
        ;
        crate::rounding::lemma_nearest_monotone(h, f.inf(), d, n * d, 1);
    }
}

/// A product with zero is zero.
pub proof fn lemma_times_zero(z: Binary32, a: Binary32)
    requires
        z.parts().pattern == 0,
        a.finite(),
    ensures
        z.product(a).parts().pattern == 0,
        a.product(z).parts().pattern == 0,
{
    reveal(Binary32::product);
    lemma_format();
    let f = format();
    vstd::arithmetic::power2::lemma_pow2_pos(149);
    crate::binary::lemma_zero(f, vstd::arithmetic::power2::pow2(149));
    crate::binary::lemma_order(f, a.parts().pattern, 0);
    assert(z.parts().magnitude(f) == 0);
    assert(0 * a.parts().magnitude(f) == 0);
    assert(a.parts().magnitude(f) * 0 == 0);
}

/// Adding zero on either side changes nothing.
pub proof fn lemma_plus_zero(z: Binary32, a: Binary32)
    requires
        z.parts().pattern == 0,
        a.finite(),
    ensures
        z.sum(a).finite() && z.sum(a).units() == a.units(),
        a.sum(z).finite() && a.sum(z).units() == a.units(),
{
    reveal(Binary32::sum);
    lemma_format();
    let f = format();
    let p = a.parts();
    crate::binary::lemma_order(f, p.pattern, p.pattern);
    crate::rounding::lemma_representable(f.h(), f.inf(), p.pattern as nat, 1);
    assert(z.parts().magnitude(f) == 0);
    assert(z.parts().units(f) == 0);
}

/// A finite number that is not zero goes into itself exactly once.
pub proof fn lemma_self_quotient(a: Binary32)
    requires
        a.finite(),
        a.parts().pattern > 0,
    ensures
        a.quotient(a) == (Binary32 { bits: 0x3f80_0000 }),
{
    reveal(Binary32::quotient);
    lemma_format();
    lemma_one();
    let f = format();
    let one = Binary32 { bits: 0x3f80_0000 };
    let d = a.parts().magnitude(f);
    crate::binary::lemma_order(f, a.parts().pattern, 0);
    crate::rounding::lemma_representable(f.h(), f.inf(), one.parts().pattern as nat, d);
    assert(d * vstd::arithmetic::power2::pow2(149) == vstd::arithmetic::power2::pow2(149) * d)
        by (nonlinear_arith);
    lemma_parts(one);
}

/// One less one is zero.
pub proof fn lemma_one_less_one()
    ensures
        ({
            let one = Binary32 { bits: 0x3f80_0000 };
            one.difference(one) == (Binary32 { bits: 0 })
        }),
{
    lemma_format();
    lemma_one();
    reveal(Binary32::sum);
    reveal(Binary32::negation);
}

/// Factors can change places.
pub proof fn lemma_product_symmetric(a: Binary32, b: Binary32)
    ensures
        a.product(b) == b.product(a),
{
    reveal(Binary32::product);
    let f = format();
    assert(a.parts().magnitude(f) * b.parts().magnitude(f) == b.parts().magnitude(f)
        * a.parts().magnitude(f)) by (nonlinear_arith);
}

} // verus!
