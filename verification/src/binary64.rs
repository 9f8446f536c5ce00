//! Double-precision floating-point numbers.

use crate::binary::{Format, Parts};
use crate::binary;
use crate::binary32::Binary32;
use vstd::prelude::*;

verus! {

/// The 64-bit interchange format: 53 digits, smallest positive number
/// `2^-1074`.
pub open spec fn format() -> Format {
    Format { digits: 53, hidden: 0x10_0000_0000_0000, top: 0x7ff0_0000_0000_0000, unit: 1074 }
}

pub(crate) proof fn lemma_format()
    ensures
        format().valid(),
{
    vstd::arithmetic::power2::lemma2_to64();
    vstd::arithmetic::power2::lemma2_to64_rest();
}

pub(crate) fn layout() -> (f: Format)
    ensures
        f == format(),
        f.valid(),
{
    proof {
        lemma_format();
    }
    Format { digits: 53, hidden: 0x10_0000_0000_0000, top: 0x7ff0_0000_0000_0000, unit: 1074 }
}

/// A double-precision number, held by its bits. `==` compares bits; numbers
/// are compared with the methods below.
#[derive(Clone, Copy, Debug, PartialEq, Eq, Structural)]
pub struct Binary64 {
    pub bits: u64,
}

impl Binary64 {
    /// Sign and pattern.
    pub open spec fn parts(self) -> Parts {
        Parts { negative: self.bits >= 0x8000_0000_0000_0000, pattern: self.bits % 0x8000_0000_0000_0000 }
    }

    /// The number with the given sign and pattern.
    pub open spec fn of(p: Parts) -> Binary64 {
        Binary64 {
            bits: if p.negative {
                (p.pattern + 0x8000_0000_0000_0000) as u64
            } else {
                p.pattern
            },
        }
    }

    pub open spec fn nan(self) -> bool {
        self.parts().nan(format())
    }

    pub open spec fn finite(self) -> bool {
        self.parts().finite(format())
    }

    /// The number itself, counted in units of the smallest positive one.
    pub open spec fn units(self) -> int {
        self.parts().units(format())
    }

    #[verifier::opaque]
    pub open spec fn negation(self) -> Binary64 {
        let p = self.parts();
        Binary64::of(Parts { negative: !p.negative, pattern: p.pattern })
    }

    #[verifier::opaque]
    pub open spec fn absolute(self) -> Binary64 {
        Binary64::of(Parts { negative: false, pattern: self.parts().pattern })
    }

    #[verifier::opaque]
    pub open spec fn sum(self, other: Binary64) -> Binary64 {
        Binary64::of(binary::sum(format(), self.parts(), other.parts()))
    }

    pub open spec fn difference(self, other: Binary64) -> Binary64 {
        self.sum(other.negation())
    }

    #[verifier::opaque]
    pub open spec fn product(self, other: Binary64) -> Binary64 {
        Binary64::of(binary::product(format(), self.parts(), other.parts()))
    }

    #[verifier::opaque]
    pub open spec fn quotient(self, other: Binary64) -> Binary64 {
        Binary64::of(binary::quotient(format(), self.parts(), other.parts()))
    }

    #[verifier::opaque]
    pub open spec fn root(self) -> Binary64 {
        Binary64::of(binary::root(format(), self.parts()))
    }

    /// `self < other`; false where one of them is not a number.
    #[verifier::opaque]
    pub open spec fn lt(self, other: Binary64) -> bool {
        binary::less(format(), self.parts(), other.parts())
    }

    /// `self <= other`; false where one of them is not a number.
    #[verifier::opaque]
    pub open spec fn le(self, other: Binary64) -> bool {
        binary::at_most(format(), self.parts(), other.parts())
    }

    /// The larger of two numbers; where one is not a number, the other.
    pub open spec fn larger(self, other: Binary64) -> Binary64 {
        if self.nan() || self.lt(other) {
            other
        } else {
            self
        }
    }

    /// The smaller of two numbers; where one is not a number, the other.
    pub open spec fn smaller(self, other: Binary64) -> Binary64 {
        if self.nan() || other.lt(self) {
            other
        } else {
            self
        }
    }

    /// `self` held between two bounds.
    pub open spec fn clamped(self, low: Binary64, high: Binary64) -> Binary64 {
        if self.lt(low) {
            low
        } else if high.lt(self) {
            high
        } else {
            self
        }
    }

    /// The number nearest to a whole one.
    #[verifier::opaque]
    pub open spec fn whole(n: nat) -> Binary64 {
        Binary64::of(
            binary::rounded(
                format(),
                false,
                n * vstd::arithmetic::power2::pow2(format().unit as nat),
                1,
            ),
        )
    }

    /// A narrower number, exactly.
    #[verifier::opaque]
    pub open spec fn widened(a: Binary32) -> Binary64 {
        Binary64::of(
            binary::converted(crate::binary32::format(), format(), a.parts()),
        )
    }

    /// The nearest narrower number.
    #[verifier::opaque]
    pub open spec fn narrowed(self) -> Binary32 {
        Binary32::of(
            binary::converted(format(), crate::binary32::format(), self.parts()),
        )
    }

    pub(crate) fn split(self) -> (p: Parts)
        ensures
            p == self.parts(),
    {
        Parts { negative: self.bits >= 0x8000_0000_0000_0000, pattern: self.bits % 0x8000_0000_0000_0000 }
    }

    pub(crate) fn join(p: Parts) -> (r: Binary64)
        requires
            p.pattern < 0x8000_0000_0000_0000,
        ensures
            r == Binary64::of(p),
    {
        if p.negative {
            Binary64 { bits: p.pattern + 0x8000_0000_0000_0000 }
        } else {
            Binary64 { bits: p.pattern }
        }
    }

    pub fn is_nan(self) -> (r: bool)
        ensures
            r == self.nan(),
    {
        self.bits % 0x8000_0000_0000_0000 > 0x7ff0_0000_0000_0000
    }

    pub fn is_finite(self) -> (r: bool)
        ensures
            r == self.finite(),
    {
        self.bits % 0x8000_0000_0000_0000 < 0x7ff0_0000_0000_0000
    }

    /// `-self`.
    pub fn negate(self) -> (r: Binary64)
        ensures
            r == self.negation(),
    {
        proof {
            reveal(Binary64::negation);
        }
        let p: Parts = self.split();
        Binary64::join(Parts { negative: !p.negative, pattern: p.pattern })
    }

    /// `|self|`.
    pub fn magnitude(self) -> (r: Binary64)
        ensures
            r == self.absolute(),
    {
        proof {
            reveal(Binary64::absolute);
        }
        Binary64 { bits: self.bits % 0x8000_0000_0000_0000 }
    }

    /// `self + other`.
    pub fn plus(self, other: Binary64) -> (r: Binary64)
        ensures
            r == self.sum(other),
    {
        proof {
            reveal(Binary64::sum);
        }
        Binary64::join(self.split().plus(layout(), other.split()))
    }

    /// `self - other`.
    pub fn minus(self, other: Binary64) -> (r: Binary64)
        ensures
            r == self.difference(other),
    {
        self.plus(other.negate())
    }

    /// `self * other`.
    pub fn times(self, other: Binary64) -> (r: Binary64)
        ensures
            r == self.product(other),
    {
        proof {
            reveal(Binary64::product);
        }
        Binary64::join(self.split().times(layout(), other.split()))
    }

    /// `self / other`.
    pub fn over(self, other: Binary64) -> (r: Binary64)
        ensures
            r == self.quotient(other),
    {
        proof {
            reveal(Binary64::quotient);
        }
        Binary64::join(self.split().over(layout(), other.split()))
    }

    /// The square root.
    pub fn square_root(self) -> (r: Binary64)
        ensures
            r == self.root(),
    {
        proof {
            reveal(Binary64::root);
        }
        Binary64::join(self.split().square_root(layout()))
    }

    /// `self < other`.
    pub fn less(self, other: Binary64) -> (r: bool)
        ensures
            r == self.lt(other),
    {
        proof {
            reveal(Binary64::lt);
        }
        self.split().is_less(layout(), other.split())
    }

    /// `self <= other`.
    pub fn at_most(self, other: Binary64) -> (r: bool)
        ensures
            r == self.le(other),
    {
        proof {
            reveal(Binary64::le);
        }
        self.split().is_at_most(layout(), other.split())
    }

    /// The larger of two numbers; where one is not a number, the other.
    pub fn maximum(self, other: Binary64) -> (r: Binary64)
        ensures
            r == self.larger(other),
    {
        if self.is_nan() || self.less(other) {
            other
        } else {
            self
        }
    }

    /// The smaller of two numbers; where one is not a number, the other.
    pub fn minimum(self, other: Binary64) -> (r: Binary64)
        ensures
            r == self.smaller(other),
    {
        if self.is_nan() || other.less(self) {
            other
        } else {
            self
        }
    }

    /// `self` held between two bounds; what is not a number stays so.
    pub fn clamp(self, low: Binary64, high: Binary64) -> (r: Binary64)
        ensures
            r == self.clamped(low, high),
    {
        if self.less(low) {
            low
        } else if high.less(self) {
            high
        } else {
            self
        }
    }

    /// Whether `self` comes before `other` in the total order of all patterns.
    pub fn ranks_below(self, other: Binary64) -> (r: bool)
        ensures
            r == (binary::rank(self.parts()) < binary::rank(other.parts())),
    {
        self.split().ranks_below(other.split())
    }

    /// The number nearest to a whole one.
    pub fn from_count(n: u64) -> (r: Binary64)
        ensures
            r == Binary64::whole(n as nat),
    {
        proof {
            reveal(Binary64::whole);
        }
        Binary64::join(Parts::from_integer(layout(), n))
    }

    /// A narrower number, exactly.
    pub fn widen(a: Binary32) -> (r: Binary64)
        ensures
            r == Binary64::widened(a),
    {
        proof {
            reveal(Binary64::widened);
        }
        Binary64::join(a.split().convert(crate::binary32::layout(), layout()))
    }

    /// The nearest narrower number.
    pub fn narrow(self) -> (r: Binary32)
        ensures
            r == self.narrowed(),
    {
        proof {
            reveal(Binary64::narrowed);
        }
        Binary32::join(self.split().convert(layout(), crate::binary32::layout()))
    }

    /// The whole part, held between zero and `limit`; zero for what is not a
    /// number.
    pub fn whole_at_most(self, limit: u64) -> (r: u64)
        ensures
            r == binary::whole_part(format(), self.parts(), limit),
            r <= limit,
    {
        self.split().to_integer(layout(), limit)
    }
}

/// The bits of `1.0` stand for one.
pub proof fn lemma_one()
    ensures
        (Binary64 { bits: 0x3ff0_0000_0000_0000 }).units() == vstd::arithmetic::power2::pow2(1074),
{
    let h = 0x10_0000_0000_0000nat;
    lemma_format();
    crate::rounding::lemma_mag_parts(h, 1022, h);
    assert(1022 * h + h == 0x3ff0_0000_0000_0000);
    vstd::arithmetic::power2::lemma2_to64();
    vstd::arithmetic::power2::lemma2_to64_rest();
    vstd::arithmetic::power2::lemma_pow2_adds(52, 1022);
}

/// A count is a finite number, and not zero unless it counts nothing.
pub proof fn lemma_count(n: nat)
    requires
        n <= u64::MAX,
    ensures
        Binary64::whole(n).finite(),
        !Binary64::whole(n).parts().negative,
        n > 0 ==> Binary64::whole(n).parts().pattern > 0,
{
    reveal(Binary64::whole);
    lemma_format();
    let f = format();
    let h = 0x10_0000_0000_0000nat;
    let d = vstd::arithmetic::power2::pow2(1074);
    vstd::arithmetic::power2::lemma2_to64();
    vstd::arithmetic::power2::lemma2_to64_rest();
    vstd::arithmetic::power2::lemma_pow2_pos(1074);
    crate::rounding::lemma_mag_parts(h, 1086, h);
    vstd::arithmetic::power2::lemma_pow2_adds(52, 1086);
    vstd::arithmetic::power2::lemma_pow2_adds(64, 1074);
    assert(1086 * h + h == 0x43f0_0000_0000_0000);
    crate::rounding::lemma_representable(h, f.inf(), 0x43f0_0000_0000_0000, 1);
    assert(n * d <= 0x1_0000_0000_0000_0000 * d) by (nonlinear_arith)
        requires
            n <= 0x1_0000_0000_0000_0000,
            d > 0,
    ;
    crate::rounding::lemma_nearest_monotone(
        h,
        f.inf(),
        n * d,
        (0x1_0000_0000_0000_0000 * d) as nat,
        1,
    );
    if n > 0 {
        crate::rounding::lemma_mag_parts(h, 1022, h);
        vstd::arithmetic::power2::lemma_pow2_adds(52, 1022);
        assert(1022 * h + h == 0x3ff0_0000_0000_0000);
        crate::rounding::lemma_representable(h, f.inf(), 0x3ff0_0000_0000_0000, 1);
        assert(d <= n * d) by (nonlinear_arith)
            requires
                n >= 1,
                d > 0,
        ;
        crate::rounding::lemma_nearest_monotone(h, f.inf(), d, n * d, 1);
    }
}

/// Whole numbers of up to 53 binary digits are exact.
pub proof fn lemma_whole(n: nat)
    requires
        n < 0x20_0000_0000_0000,
    ensures
        Binary64::whole(n).units() == n * vstd::arithmetic::power2::pow2(1074),
        !Binary64::whole(n).parts().negative,
        Binary64::whole(n).finite(),
{
    lemma_count(n);
    lemma_format();
    reveal(Binary64::whole);
    let f = format();
    let h = 0x10_0000_0000_0000nat;
    let d = vstd::arithmetic::power2::pow2(1074);
    binary::lemma_rounded(f, false, n * d, 1);
    if n == 0 {
        assert(n * d == 0) by (nonlinear_arith)
            requires
                n == 0,
        ;
        binary::lemma_zero(f, 1);
        binary::lemma_order(f, 0, 0);
    } else {
        let k = crate::rounding::lemma_scaled(h, n, 1074);
        assert(k <= f.inf());
        crate::rounding::lemma_representable(h, f.inf(), k, 1);
    }
}

} // verus!
