//! Arithmetic on binary floating-point numbers held by sign and pattern.
//!
//! Every operation is the exact operation on the numbers that the operands
//! stand for, followed by one rounding to the nearest representable number.
//! The two interchange formats in use are declared in [`crate::binary32`] and
//! [`crate::binary64`].

use crate::rounding::{bit_length, power_of_two, round_to};
use crate::rounding::{is_nearest, is_nearest_root, mag, nearest, nearest_root, place, up};
use vstd::arithmetic::power2::pow2;
use vstd::prelude::*;

verus! {

/// A binary interchange format.
#[derive(Clone, Copy)]
pub struct Format {
    /// Digits of a significand, the hidden one among them.
    pub digits: u32,
    /// The hidden bit, `2^(digits - 1)`.
    pub hidden: u64,
    /// Pattern of infinity.
    pub top: u64,
    /// The smallest positive number is `2^-unit`.
    pub unit: u32,
}

impl Format {
    pub open spec fn h(self) -> nat {
        self.hidden as nat
    }

    pub open spec fn inf(self) -> nat {
        self.top as nat
    }

    pub open spec fn valid(self) -> bool {
        &&& 8 <= self.digits <= 53
        &&& self.hidden == pow2((self.digits - 1) as nat)
        &&& self.top % 2 == 0
        &&& 2 * self.hidden < self.top
        &&& self.top / self.hidden <= 2048
        &&& self.top + self.hidden <= 0x7fff_ffff_ffff_ffff + 1
        &&& 140 <= self.unit <= 1100
    }
}

/// Sign and pattern of a number; a pattern above infinity's is "not a number".
#[derive(Clone, Copy, PartialEq, Eq, Structural)]
pub struct Parts {
    pub negative: bool,
    pub pattern: u64,
}

impl Parts {
    pub open spec fn nan(self, f: Format) -> bool {
        self.pattern > f.top
    }

    pub open spec fn infinite(self, f: Format) -> bool {
        self.pattern == f.top
    }

    pub open spec fn finite(self, f: Format) -> bool {
        self.pattern < f.top
    }

    /// Distance from zero, in units of the smallest positive number.
    pub open spec fn magnitude(self, f: Format) -> nat {
        mag(f.h(), self.pattern as nat)
    }

    /// The number itself, in units of the smallest positive number.
    pub open spec fn units(self, f: Format) -> int {
        if self.negative {
            -self.magnitude(f)
        } else {
            self.magnitude(f) as int
        }
    }
}

/// The quiet "not a number" that operations return.
pub open spec fn not_a_number(f: Format) -> Parts {
    Parts { negative: false, pattern: (f.top + f.hidden / 2) as u64 }
}

pub open spec fn infinity(f: Format, negative: bool) -> Parts {
    Parts { negative, pattern: f.top }
}

pub open spec fn zero(negative: bool) -> Parts {
    Parts { negative, pattern: 0 }
}

/// The number nearest to `n / d` units, with the given sign.
pub open spec fn rounded(f: Format, negative: bool, n: nat, d: nat) -> Parts {
    Parts { negative, pattern: nearest(f.h(), f.inf(), n, d) as u64 }
}

/// `a + b`.
pub open spec fn sum(f: Format, a: Parts, b: Parts) -> Parts {
    if a.nan(f) || b.nan(f) || (a.infinite(f) && b.infinite(f) && a.negative != b.negative) {
        not_a_number(f)
    } else if a.infinite(f) {
        a
    } else if b.infinite(f) {
        b
    } else {
        let s = a.units(f) + b.units(f);
        if s == 0 {
            zero(a.negative && b.negative)
        } else if s < 0 {
            rounded(f, true, (-s) as nat, 1)
        } else {
            rounded(f, false, s as nat, 1)
        }
    }
}

/// `a * b`.
pub open spec fn product(f: Format, a: Parts, b: Parts) -> Parts {
    let negative = a.negative != b.negative;
    if a.nan(f) || b.nan(f) {
        not_a_number(f)
    } else if a.infinite(f) || b.infinite(f) {
        if a.pattern == 0 || b.pattern == 0 {
            not_a_number(f)
        } else {
            infinity(f, negative)
        }
    } else {
        rounded(f, negative, a.magnitude(f) * b.magnitude(f), pow2(f.unit as nat))
    }
}

/// `a / b`.
pub open spec fn quotient(f: Format, a: Parts, b: Parts) -> Parts {
    let negative = a.negative != b.negative;
    if a.nan(f) || b.nan(f) || (a.infinite(f) && b.infinite(f)) || (a.pattern == 0 && b.pattern
        == 0) {
        not_a_number(f)
    } else if a.infinite(f) || b.pattern == 0 {
        infinity(f, negative)
    } else if b.infinite(f) {
        zero(negative)
    } else {
        rounded(f, negative, a.magnitude(f) * pow2(f.unit as nat), b.magnitude(f))
    }
}

/// The square root of `a`.
pub open spec fn root(f: Format, a: Parts) -> Parts {
    if a.nan(f) || (a.negative && a.pattern != 0) {
        not_a_number(f)
    } else if a.pattern == 0 || a.infinite(f) {
        a
    } else {
        Parts {
            negative: false,
            pattern: nearest_root(f.h(), f.inf(), a.magnitude(f) * pow2(f.unit as nat)) as u64,
        }
    }
}

/// `a` in another format.
pub open spec fn converted(f: Format, g: Format, a: Parts) -> Parts {
    if a.nan(f) {
        not_a_number(g)
    } else if a.infinite(f) {
        infinity(g, a.negative)
    } else {
        rounded(g, a.negative, a.magnitude(f) * up(g.unit - f.unit), up(f.unit - g.unit))
    }
}

/// `a < b`; false where one of them is not a number.
pub open spec fn less(f: Format, a: Parts, b: Parts) -> bool {
    !a.nan(f) && !b.nan(f) && a.units(f) < b.units(f)
}

/// `a <= b`; false where one of them is not a number.
pub open spec fn at_most(f: Format, a: Parts, b: Parts) -> bool {
    !a.nan(f) && !b.nan(f) && a.units(f) <= b.units(f)
}

/// The whole part of `a`, held between zero and `limit`; zero where `a` is not
/// a number.
pub open spec fn whole_part(f: Format, a: Parts, limit: u64) -> u64 {
    if a.nan(f) || a.units(f) <= 0 {
        0
    } else if a.infinite(f) || a.magnitude(f) / pow2(f.unit as nat) >= limit {
        limit
    } else {
        (a.magnitude(f) / pow2(f.unit as nat)) as u64
    }
}

/// Position in the total order that sorts every pattern, `-0` below `+0` and
/// "not a number" at the two ends.
pub open spec fn rank(a: Parts) -> int {
    if a.negative {
        -1 - a.pattern
    } else {
        a.pattern as int
    }
}

/// Significand and last-place exponent of a finite number.
fn split(f: Format, k: u64) -> (parts: (u128, u32))
    requires
        f.valid(),
        k < f.top,
    ensures
        mag(f.h(), k as nat) == parts.0 * pow2(parts.1 as nat),
        parts.0 < 2 * f.hidden,
        parts.1 > 0 ==> parts.0 >= f.hidden,
        parts.1 <= 2047,
        parts.1 == place(f.h(), k as nat),
        k == parts.1 * f.hidden + parts.0,
        k > 0 ==> parts.0 > 0,
{
    proof {
        vstd::arithmetic::power2::lemma_pow2_pos((f.digits - 1) as nat);
        crate::rounding::lemma_parts(f.h(), k as nat);
    }
    if k < f.hidden {
        proof {
            assert(0 * f.hidden == 0);
        }
        (k as u128, 0)
    } else {
        proof {
            assert(1 <= k / f.hidden <= f.top / f.hidden) by (nonlinear_arith)
                requires
                    f.hidden <= k < f.top,
                    f.hidden > 0,
            ;
        }
        let t: u64 = k / f.hidden - 1;
        proof {
            assert(t == place(f.h(), k as nat));
            assert(t * f.hidden >= 0) by (nonlinear_arith)
                requires
                    t >= 0,
                    f.hidden >= 0,
            ;
        }
        ((k - t * f.hidden) as u128, t as u32)
    }
}


/// Rounds `m * 2^e`, or with `sticky` what lies just above it, to the format.
fn round_parts(
    f: Format,
    negative: bool,
    m: u128,
    e: i32,
    sticky: bool,
    Ghost(n): Ghost<nat>,
    Ghost(d): Ghost<nat>,
) -> (r: Parts)
    requires
        f.valid(),
        0 < m < pow2(126),
        -4000 <= e <= 4000,
        d > 0,
        !sticky ==> m * up(e as int) * d == n * up(-e),
        sticky ==> m * up(e as int) * d < n * up(-e) < (m + 1) * up(e as int) * d,
        sticky ==> m >= 4 * f.hidden,
    ensures
        r == rounded(f, negative, n, d),
        is_nearest(f.h(), f.inf(), r.pattern as nat, n, d),
{
    proof {
        lemma_top(f);
    }
    let k: u128 = round_to(
        f.hidden as u128,
        f.digits,
        f.top as u128,
        m,
        e,
        sticky,
        Ghost(n),
        Ghost(d),
    );
    proof {
        crate::rounding::lemma_is_nearest(f.h(), f.inf(), k as nat, n, d);
    }
    Parts { negative, pattern: k as u64 }
}

proof fn lemma_top(f: Format)
    requires
        f.valid(),
    ensures
        0 < f.hidden,
        0 < f.top < pow2(126),
{
    vstd::arithmetic::power2::lemma_pow2_pos((f.digits - 1) as nat);
    vstd::arithmetic::power2::lemma2_to64();
    vstd::arithmetic::power2::lemma2_to64_rest();
    vstd::arithmetic::power2::lemma_pow2_strictly_increases(64, 126);
}

/// Zero rounds to zero.
pub proof fn lemma_zero(f: Format, d: nat)
    requires
        f.valid(),
        d > 0,
    ensures
        nearest(f.h(), f.inf(), 0, d) == 0,
{
    lemma_top(f);
    assert(d * (mag(f.h(), 0) + mag(f.h(), 1)) >= 0) by (nonlinear_arith)
        requires
            d > 0,
            mag(f.h(), 0) + mag(f.h(), 1) >= 0,
    ;
    assert(is_nearest(f.h(), f.inf(), 0, 0, d));
    crate::rounding::lemma_is_nearest(f.h(), f.inf(), 0, 0, d);
}

proof fn lemma_quotient(k: nat, h: nat)
    requires
        h > 0,
    ensures
        k >= h ==> k / h >= 1,
{
    if k >= h {
        assert(k / h >= 1) by (nonlinear_arith)
            requires
                k >= h,
                h > 0,
        ;
    }
}

/// What is far below the last place of `x` does not move it.
proof fn lemma_far(f: Format, x: u64, y: u64, n: nat)
    requires
        f.valid(),
        x < f.top,
        y < f.top,
        place(f.h(), x as nat) > place(f.h(), y as nat) + 64,
        n == mag(f.h(), x as nat) + mag(f.h(), y as nat) || n == mag(f.h(), x as nat) - mag(
            f.h(),
            y as nat,
        ),
    ensures
        nearest(f.h(), f.inf(), n, 1) == x,
{
    lemma_top(f);
    let h = f.h();
    let k = x as nat;
    let t = place(h, k);
    let u = place(h, y as nat);
    let p = f.digits as nat;
    crate::rounding::lemma_parts(h, y as nat);
    vstd::arithmetic::power2::lemma_pow2_unfold(p);
    vstd::arithmetic::power2::lemma_pow2_pos(u);
    vstd::arithmetic::power2::lemma_pow2_adds(p, u);
    let m = (y - u * h) as nat;
    assert(m * pow2(u) < pow2(p) * pow2(u)) by (nonlinear_arith)
        requires
            m < pow2(p),
            pow2(u) > 0,
    ;
    vstd::arithmetic::power2::lemma_pow2_strictly_increases(p + u, (t - 2) as nat);
    vstd::arithmetic::power2::lemma_pow2_unfold((t - 1) as nat);
    vstd::arithmetic::power2::lemma_pow2_unfold(t);
    assert(k >= h);
    assert(k / h - 1 <= (k - 1) as nat / h <= k / h) by (nonlinear_arith)
        requires
            h > 0,
            k >= h,
    ;
    lemma_quotient(k, h);
    assert(k - 1 >= h) by (nonlinear_arith)
        requires
            k / h >= 2,
            h > 0,
    ;
    lemma_quotient((k - 1) as nat, h);
    let v = place(h, (k - 1) as nat);
    assert(t - 1 <= v <= t);
    if v != t {
        assert(v == t - 1);
    }
    crate::rounding::lemma_mag_step(h, k);
    crate::rounding::lemma_mag_step(h, (k - 1) as nat);
    assert(is_nearest(h, f.inf(), k, n, 1));
    crate::rounding::lemma_is_nearest(h, f.inf(), k, n, 1);
}

impl Parts {
    /// `self + other`.
    pub fn plus(self, f: Format, other: Parts) -> (r: Parts)
        requires
            f.valid(),
        ensures
            r == sum(f, self, other),
            r.pattern <= f.top + f.hidden / 2,
    {
        proof {
            lemma_top(f);
        }
        let quiet: Parts = Parts { negative: false, pattern: f.top + f.hidden / 2 };
        if self.pattern > f.top || other.pattern > f.top {
            return quiet;
        }
        if self.pattern == f.top {
            if other.pattern == f.top && self.negative != other.negative {
                return quiet;
            }
            return self;
        }
        if other.pattern == f.top {
            return other;
        }
        if self.pattern >= other.pattern {
            sum_ordered(f, self, other)
        } else {
            sum_ordered(f, other, self)
        }
    }
}

/// `x + y` of two finite numbers, `x` the one farther from zero.
fn sum_ordered(f: Format, x: Parts, y: Parts) -> (r: Parts)
    requires
        f.valid(),
        y.pattern <= x.pattern < f.top,
    ensures
        r == sum(f, x, y),
        r.pattern <= f.top + f.hidden / 2,
{
    let (mx, tx) = split(f, x.pattern);
    let (my, ty) = split(f, y.pattern);
    let ghost a = mag(f.h(), x.pattern as nat);
    let ghost b = mag(f.h(), y.pattern as nat);
    proof {
        lemma_top(f);
        if y.pattern < x.pattern {
            crate::rounding::lemma_mag_increasing(f.h(), y.pattern as nat, x.pattern as nat);
        }
        assert(tx >= ty) by {
            lemma_quotient(x.pattern as nat, f.h());
            lemma_quotient(y.pattern as nat, f.h());
            vstd::arithmetic::div_mod::lemma_div_is_ordered(
                y.pattern as int,
                x.pattern as int,
                f.hidden as int,
            );
        }
    }
    let same: bool = x.negative == y.negative;
    if tx - ty > 64 {
        proof {
            lemma_far(f, x.pattern, y.pattern, a + b);
            lemma_far(f, x.pattern, y.pattern, (a - b) as nat);
        }
        return x;
    }
    let g: u32 = tx - ty;
    let w: u128 = power_of_two(g);
    proof {
        lemma_small_product(f, mx, g);
        vstd::arithmetic::power2::lemma_pow2_adds(g as nat, ty as nat);
        assert(a == mx * w * pow2(ty as nat)) by (nonlinear_arith)
            requires
                a == mx * pow2(tx as nat),
                pow2(tx as nat) == w * pow2(ty as nat),
        ;
        assert((mx * w + my) * pow2(ty as nat) == mx * w * pow2(ty as nat) + my * pow2(ty as nat))
            by (nonlinear_arith);
        assert((mx * w - my) * pow2(ty as nat) == mx * w * pow2(ty as nat) - my * pow2(ty as nat))
            by (nonlinear_arith);
        vstd::arithmetic::power2::lemma_pow2_pos(ty as nat);
        if mx * w < my {
            assert((mx * w - my) * pow2(ty as nat) < 0) by (nonlinear_arith)
                requires
                    mx * w < my,
                    pow2(ty as nat) > 0,
            ;
        }
    }
    let m: u128 = if same {
        mx * w + my
    } else {
        mx * w - my
    };
    let ghost s = if same { a + b } else { (a - b) as nat };
    proof {
        assert(s == m * pow2(ty as nat));
        assert(m == 0 <==> s == 0) by (nonlinear_arith)
            requires
                s == m * pow2(ty as nat),
                pow2(ty as nat) > 0,
        ;
        vstd::arithmetic::power2::lemma2_to64();
        assert(up(-(ty as int)) == 1);
        assert(up(ty as int) == pow2(ty as nat));
    }
    if m == 0 {
        return Parts { negative: x.negative && y.negative, pattern: 0 };
    }
    round_parts(f, x.negative, m, ty as i32, false, Ghost(s), Ghost(1))
}

proof fn lemma_small_product(f: Format, m: u128, g: u32)
    requires
        f.valid(),
        m < 2 * f.hidden,
        g <= 64,
    ensures
        m * pow2(g as nat) + 2 * f.hidden < pow2(126),
        pow2(126) == 0x4000_0000_0000_0000_0000_0000_0000_0000,
{
    vstd::arithmetic::power2::lemma2_to64();
    vstd::arithmetic::power2::lemma2_to64_rest();
    vstd::arithmetic::power2::lemma_pow2_unfold(f.digits as nat);
    vstd::arithmetic::power2::lemma_pow2_adds(62, 64);
    if f.digits < 53 {
        vstd::arithmetic::power2::lemma_pow2_strictly_increases(f.digits as nat, 53);
    }
    if g < 64 {
        vstd::arithmetic::power2::lemma_pow2_strictly_increases(g as nat, 64);
    }
    assert(m * pow2(g as nat) <= 0x20_0000_0000_0000 * 0x1_0000_0000_0000_0000)
        by (nonlinear_arith)
        requires
            m <= 0x20_0000_0000_0000,
            pow2(g as nat) <= 0x1_0000_0000_0000_0000,
            pow2(g as nat) >= 0,
    ;
}

/// Significands of the format are small next to the working precision.
proof fn lemma_digits(f: Format)
    requires
        f.valid(),
    ensures
        0 < f.hidden <= 0x10_0000_0000_0000,
        pow2(124) == 0x1000_0000_0000_0000_0000_0000_0000_0000,
        pow2(125) == 0x2000_0000_0000_0000_0000_0000_0000_0000,
        pow2(126) == 0x4000_0000_0000_0000_0000_0000_0000_0000,
{
    lemma_top(f);
    vstd::arithmetic::power2::lemma2_to64();
    vstd::arithmetic::power2::lemma2_to64_rest();
    vstd::arithmetic::power2::lemma_pow2_adds(62, 62);
    vstd::arithmetic::power2::lemma_pow2_adds(61, 64);
    vstd::arithmetic::power2::lemma_pow2_adds(62, 64);
    if f.digits < 53 {
        vstd::arithmetic::power2::lemma_pow2_strictly_increases((f.digits - 1) as nat, 52);
    }
}

impl Parts {
    /// `self * other`.
    pub fn times(self, f: Format, other: Parts) -> (r: Parts)
        requires
            f.valid(),
        ensures
            r == product(f, self, other),
            r.pattern <= f.top + f.hidden / 2,
    {
        proof {
            lemma_digits(f);
        }
        let negative: bool = self.negative != other.negative;
        let quiet: Parts = Parts { negative: false, pattern: f.top + f.hidden / 2 };
        if self.pattern > f.top || other.pattern > f.top {
            return quiet;
        }
        if self.pattern == f.top || other.pattern == f.top {
            if self.pattern == 0 || other.pattern == 0 {
                return quiet;
            }
            return Parts { negative, pattern: f.top };
        }
        let (mx, tx) = split(f, self.pattern);
        let (my, ty) = split(f, other.pattern);
        let ghost a = mag(f.h(), self.pattern as nat);
        let ghost b = mag(f.h(), other.pattern as nat);
        let ghost d = pow2(f.unit as nat);
        proof {
            vstd::arithmetic::power2::lemma_pow2_pos(f.unit as nat);
            assert(0 <= mx * my <= 0x20_0000_0000_0000 * 0x20_0000_0000_0000) by (nonlinear_arith)
                requires
                    mx <= 0x20_0000_0000_0000,
                    my <= 0x20_0000_0000_0000,
            ;
        }
        let m: u128 = mx * my;
        let e: i32 = tx as i32 + ty as i32 - f.unit as i32;
        proof {
            vstd::arithmetic::power2::lemma_pow2_adds(tx as nat, ty as nat);
            assert(a * b == m * pow2((tx + ty) as nat)) by (nonlinear_arith)
                requires
                    a == mx * pow2(tx as nat),
                    b == my * pow2(ty as nat),
                    m == mx * my,
                    pow2((tx + ty) as nat) == pow2(tx as nat) * pow2(ty as nat),
            ;
            crate::rounding::lemma_shifted_power(e as int, f.unit as nat, (tx + ty) as nat);
            assert(m * up(e as int) * d == a * b * up(-e)) by (nonlinear_arith)
                requires
                    a * b == m * pow2((tx + ty) as nat),
                    pow2((tx + ty) as nat) * up(-e) == d * up(e as int),
            ;
        }
        if m == 0 {
            proof {
                assert(a * b == 0) by (nonlinear_arith)
                    requires
                        a * b == m * pow2((tx + ty) as nat),
                        m == 0,
                ;
                lemma_zero(f, d);
            }
            return Parts { negative, pattern: 0 };
        }
        round_parts(f, negative, m, e, false, Ghost(a * b), Ghost(d))
    }

    /// `self / other`.
    pub fn over(self, f: Format, other: Parts) -> (r: Parts)
        requires
            f.valid(),
        ensures
            r == quotient(f, self, other),
            r.pattern <= f.top + f.hidden / 2,
    {
        proof {
            lemma_digits(f);
        }
        let negative: bool = self.negative != other.negative;
        let quiet: Parts = Parts { negative: false, pattern: f.top + f.hidden / 2 };
        if self.pattern > f.top || other.pattern > f.top || (self.pattern == f.top && other.pattern
            == f.top) || (self.pattern == 0 && other.pattern == 0) {
            return quiet;
        }
        if self.pattern == f.top || other.pattern == 0 {
            return Parts { negative, pattern: f.top };
        }
        if other.pattern == f.top {
            return Parts { negative, pattern: 0 };
        }
        let (mx, tx) = split(f, self.pattern);
        let (my, ty) = split(f, other.pattern);
        let ghost a = mag(f.h(), self.pattern as nat);
        let ghost b = mag(f.h(), other.pattern as nat);
        let ghost n = a * pow2(f.unit as nat);
        proof {
            vstd::arithmetic::power2::lemma_pow2_pos(ty as nat);
            assert(b > 0) by (nonlinear_arith)
                requires
                    b == my * pow2(ty as nat),
                    my > 0,
                    pow2(ty as nat) > 0,
            ;
        }
        if mx == 0 {
            proof {
                assert(n == 0) by (nonlinear_arith)
                    requires
                        n == a * pow2(f.unit as nat),
                        a == mx * pow2(tx as nat),
                        mx == 0,
                ;
                lemma_zero(f, b);
            }
            return Parts { negative, pattern: 0 };
        }
        let (x, c) = normalise(f, mx);
        let q: u128 = x / my;
        let sticky: bool = x % my != 0;
        let e: i32 = tx as i32 + f.unit as i32 - c as i32 - ty as i32;
        proof {
            assert(q * my <= x < (q + 1) * my && (x % my == 0 ==> q * my == x) && (x % my != 0 ==> q
                * my < x)) by (nonlinear_arith)
                requires
                    q == x / my,
                    my > 0,
            ;
            assert(q >= 0x40_0000_0000_0000) by (nonlinear_arith)
                requires
                    q == x / my,
                    x >= 0x800_0000_0000_0000_0000_0000_0000_0000,
                    0 < my <= 0x20_0000_0000_0000,
            ;
            assert(q <= x) by (nonlinear_arith)
                requires
                    q * my <= x,
                    my >= 1,
                    q >= 0,
            ;
            let u = up(e as int);
            let v = up(-e);
            lemma_up(e as int);
            lemma_up(-e);
            vstd::arithmetic::power2::lemma_pow2_adds(tx as nat, f.unit as nat);
            vstd::arithmetic::power2::lemma_pow2_adds(c as nat, ty as nat);
            crate::rounding::lemma_shifted_power(
                e as int,
                (c + ty) as nat,
                (tx + f.unit) as nat,
            );
            lemma_quotient_bracket(
                mx as nat,
                my as nat,
                x as nat,
                q as nat,
                pow2(c as nat),
                pow2(tx as nat),
                pow2(ty as nat),
                pow2(f.unit as nat),
                u,
                v,
            );
        }
        round_parts(f, negative, q, e, sticky, Ghost(n), Ghost(b))
    }
}

proof fn lemma_up(e: int)
    ensures
        up(e) > 0,
{
    if e >= 0 {
        vstd::arithmetic::power2::lemma_pow2_pos(e as nat);
    }
}

/// The integer quotient of the scaled significands brackets the quotient.
proof fn lemma_quotient_bracket(
    mx: nat,
    my: nat,
    x: nat,
    q: nat,
    pc: nat,
    px: nat,
    py: nat,
    pu: nat,
    u: nat,
    v: nat,
)
    requires
        x == mx * pc,
        q * my <= x < (q + 1) * my,
        px * pu * v == pc * py * u,
        u > 0,
        py > 0,
    ensures
        q * my == x ==> q * u * (my * py) == mx * px * pu * v,
        q * my < x ==> q * u * (my * py) < mx * px * pu * v,
        mx * px * pu * v < (q + 1) * u * (my * py),
{
    let w = u * py;
    assert(w > 0) by (nonlinear_arith)
        requires
            u > 0,
            py > 0,
            w == u * py,
    ;
    assert(mx * px * pu * v == x * w) by (nonlinear_arith)
        requires
            px * pu * v == pc * py * u,
            x == mx * pc,
            w == u * py,
    ;
    assert(q * u * (my * py) == (q * my) * w) by (nonlinear_arith)
        requires
            w == u * py,
    ;
    assert((q + 1) * u * (my * py) == ((q + 1) * my) * w) by (nonlinear_arith)
        requires
            w == u * py,
    ;
    assert(x * w < ((q + 1) * my) * w) by (nonlinear_arith)
        requires
            x < (q + 1) * my,
            w > 0,
    ;
    if q * my < x {
        assert((q * my) * w < x * w) by (nonlinear_arith)
            requires
                q * my < x,
                w > 0,
        ;
    }
}

/// Scales a significand up to the working precision: `r.0 == m * 2^r.1`.
fn normalise(f: Format, m: u128) -> (r: (u128, u32))
    requires
        f.valid(),
        0 < m < 2 * f.hidden,
    ensures
        r.0 == m * pow2(r.1 as nat),
        0x800_0000_0000_0000_0000_0000_0000_0000 <= r.0,
        r.0 < 0x1000_0000_0000_0000_0000_0000_0000_0000,
        r.1 <= 123,
{
    proof {
        lemma_digits(f);
    }
    let l: u32 = bit_length(m);
    proof {
        if l > 64 {
            vstd::arithmetic::power2::lemma2_to64();
            vstd::arithmetic::power2::lemma2_to64_rest();
            vstd::arithmetic::power2::lemma_pow2_strictly_increases(63, (l - 1) as nat);
        }
    }
    let c: u32 = 124 - l;
    let w: u128 = power_of_two(c);
    proof {
        vstd::arithmetic::power2::lemma_pow2_pos(c as nat);
        vstd::arithmetic::power2::lemma_pow2_adds(l as nat, c as nat);
        vstd::arithmetic::power2::lemma_pow2_adds((l - 1) as nat, c as nat);
        vstd::arithmetic::power2::lemma_pow2_unfold(124);
        assert(m * w < pow2(l as nat) * w) by (nonlinear_arith)
            requires
                m < pow2(l as nat),
                w > 0,
        ;
        assert(pow2((l - 1) as nat) * w <= m * w) by (nonlinear_arith)
            requires
                pow2((l - 1) as nat) <= m,
                w > 0,
        ;
    }
    (m * w, c)
}

/// Integer square root.
fn whole_root(x: u128) -> (r: u128)
    requires
        x < 0x4000_0000_0000_0000_0000_0000_0000_0000,
    ensures
        r * r <= x < (r + 1) * (r + 1),
        r < 0x8000_0000_0000_0000,
{
    let mut r: u128 = 0;
    let mut w: u128 = 0x8000_0000_0000_0000;
    let mut left: u32 = 63;
    proof {
        vstd::arithmetic::power2::lemma2_to64();
        vstd::arithmetic::power2::lemma2_to64_rest();
    }
    while left > 0
        invariant
            w == pow2(left as nat),
            left <= 63,
            r * r <= x < (r + w) * (r + w),
            r + w <= 0x8000_0000_0000_0000,
        decreases left,
    {
        proof {
            vstd::arithmetic::power2::lemma_pow2_unfold(left as nat);
            vstd::arithmetic::power2::lemma_pow2_pos((left - 1) as nat);
        }
        left = left - 1;
        w = w / 2;
        let c: u128 = r + w;
        proof {
            assert(c * c <= 0x8000_0000_0000_0000 * 0x8000_0000_0000_0000) by (nonlinear_arith)
                requires
                    0 <= c <= 0x8000_0000_0000_0000,
            ;
        }
        if c * c <= x {
            r = c;
        }
    }
    proof {
        vstd::arithmetic::power2::lemma2_to64();
    }
    r
}

/// Every number has a whole part of its square root.
proof fn lemma_floor_root(n: nat) -> (z: nat)
    ensures
        z * z <= n < (z + 1) * (z + 1),
    decreases n,
{
    if n == 0 {
        let z: nat = 0;
        assert(z * z <= n < (z + 1) * (z + 1)) by (nonlinear_arith)
            requires
                z == 0,
                n == 0,
        ;
        z
    } else {
        let z = lemma_floor_root((n - 1) as nat);
        if n < (z + 1) * (z + 1) {
            z
        } else {
            let y = z + 1;
            assert(y * y < (y + 1) * (y + 1)) by (nonlinear_arith)
                requires
                    y >= 0,
            ;
            y
        }
    }
}

proof fn lemma_square_order(a: nat, b: nat)
    ensures
        a < b <==> a * a < b * b,
        a == b <==> a * a == b * b,
{
    if a < b {
        assert(a * a < b * b) by (nonlinear_arith)
            requires
                0 <= a < b,
        ;
    } else if b < a {
        assert(b * b < a * a) by (nonlinear_arith)
            requires
                0 <= b < a,
        ;
    }
}

/// Rounding `z / 2`, or what lies in the middle of `z / 2` and `(z + 1) / 2`,
/// rounds the square root of `n`, since sums of neighbours are whole.
proof fn lemma_root_rounds(h: nat, top: nat, k: nat, n: nat, z: nat)
    requires
        z * z <= 4 * n < (z + 1) * (z + 1),
        z * z == 4 * n ==> is_nearest(h, top, k, z, 2),
        z * z < 4 * n ==> is_nearest(h, top, k, 2 * z + 1, 4),
    ensures
        is_nearest_root(h, top, k, n),
{
    if k > 0 {
        let s = mag(h, (k - 1) as nat) + mag(h, k);
        lemma_square_order(s, z);
        lemma_square_order(z, s);
    }
    if k < top {
        let s = mag(h, k) + mag(h, k + 1);
        lemma_square_order(z, s);
        lemma_square_order(s, z);
        lemma_square_order(z + 1, s);
        lemma_square_order(s, z + 1);
    }
}

/// The whole root of the scaled number brackets half of `z`.
proof fn lemma_root_bracket(x: nat, r: nat, pe: nat, n: nat, z: nat)
    requires
        r * r <= x < (r + 1) * (r + 1),
        n == x * (pe * pe),
        pe > 0,
        z * z <= 4 * n < (z + 1) * (z + 1),
    ensures
        r * r == x ==> z == 2 * (r * pe) && z * z == 4 * n,
        r * r < x && z * z == 4 * n ==> r * pe * 2 < z < (r + 1) * pe * 2,
        r * r < x && z * z < 4 * n ==> r * pe * 4 < 2 * z + 1 < (r + 1) * pe * 4,
{
    let low = 2 * (r * pe);
    let high = 2 * ((r + 1) * pe);
    let w = pe * pe;
    assert(w > 0) by (nonlinear_arith)
        requires
            pe > 0,
            w == pe * pe,
    ;
    assert(low * low == 4 * ((r * r) * w)) by (nonlinear_arith)
        requires
            low == 2 * (r * pe),
            w == pe * pe,
    ;
    assert(high * high == 4 * (((r + 1) * (r + 1)) * w)) by (nonlinear_arith)
        requires
            high == 2 * ((r + 1) * pe),
            w == pe * pe,
    ;
    assert(x * w < ((r + 1) * (r + 1)) * w) by (nonlinear_arith)
        requires
            x < (r + 1) * (r + 1),
            w > 0,
    ;
    if r * r < x {
        assert((r * r) * w < x * w) by (nonlinear_arith)
            requires
                r * r < x,
                w > 0,
        ;
    }
    lemma_square_order(low, z);
    lemma_square_order(low, z + 1);
    lemma_square_order(z, high);
    if r * r == x {
        lemma_square_order(z, low);
        lemma_square_order(z + 1, low);
    }
    assert(r * pe * 2 == low) by (nonlinear_arith)
        requires
            low == 2 * (r * pe),
    ;
    assert(r * pe * 4 == 2 * low) by (nonlinear_arith)
        requires
            low == 2 * (r * pe),
    ;
    assert((r + 1) * pe * 2 == high) by (nonlinear_arith)
        requires
            high == 2 * ((r + 1) * pe),
    ;
    assert((r + 1) * pe * 4 == 2 * high) by (nonlinear_arith)
        requires
            high == 2 * ((r + 1) * pe),
    ;
}

impl Parts {
    /// The square root of `self`.
    pub fn square_root(self, f: Format) -> (q: Parts)
        requires
            f.valid(),
        ensures
            q == root(f, self),
            q.pattern <= f.top + f.hidden / 2,
    {
        proof {
            lemma_digits(f);
        }
        if self.pattern > f.top || (self.negative && self.pattern != 0) {
            return Parts { negative: false, pattern: f.top + f.hidden / 2 };
        }
        if self.pattern == 0 || self.pattern == f.top {
            return self;
        }
        let (m, t) = split(f, self.pattern);
        let (x0, c0) = normalise(f, m);
        let odd: bool = (t + f.unit - c0) % 2 == 1;
        let x: u128 = if odd {
            2 * x0
        } else {
            x0
        };
        let c: u32 = if odd {
            c0 + 1
        } else {
            c0
        };
        let e: u32 = (t + f.unit - c) / 2;
        let r: u128 = whole_root(x);
        let exact: bool = {
            proof {
                assert(r * r <= 0x8000_0000_0000_0000 * 0x8000_0000_0000_0000)
                    by (nonlinear_arith)
                    requires
                        0 <= r <= 0x8000_0000_0000_0000,
                ;
            }
            r * r == x
        };
        let ghost n = mag(f.h(), self.pattern as nat) * pow2(f.unit as nat);
        let ghost pe = pow2(e as nat);
        proof {
            vstd::arithmetic::power2::lemma_pow2_unfold((c0 + 1) as nat);
            assert(x == m * pow2(c as nat)) by (nonlinear_arith)
                requires
                    x0 == m * pow2(c0 as nat),
                    odd ==> x == 2 * x0 && pow2(c as nat) == 2 * pow2(c0 as nat),
                    !odd ==> x == x0 && c == c0,
            ;
            vstd::arithmetic::power2::lemma_pow2_adds(t as nat, f.unit as nat);
            vstd::arithmetic::power2::lemma_pow2_adds(e as nat, e as nat);
            vstd::arithmetic::power2::lemma_pow2_adds(c as nat, (2 * e) as nat);
            assert(n == x * (pe * pe)) by (nonlinear_arith)
                requires
                    n == m * pow2(t as nat) * pow2(f.unit as nat),
                    pow2(t as nat) * pow2(f.unit as nat) == pow2(c as nat) * (pe * pe),
                    x == m * pow2(c as nat),
            ;
            vstd::arithmetic::power2::lemma_pow2_pos(e as nat);
        }
        let ghost z = lemma_floor_root(4 * n);
        proof {
            lemma_root_bracket(x as nat, r as nat, pe, n, z);
            lemma_square_order(r as nat, 0x40_0000_0000_0000);
            lemma_square_order((r + 1) as nat, 0x40_0000_0000_0001);
            vstd::arithmetic::power2::lemma2_to64();
            assert(up(e as int) == pe && up(-(e as int)) == 1);
        }
        let ghost whole = z * z == 4 * n;
        let ghost nn: nat = if whole { z } else { 2 * z + 1 };
        let ghost dd: nat = if whole { 2 } else { 4 };
        let q: Parts = round_parts(f, false, r, e as i32, !exact, Ghost(nn), Ghost(dd));
        proof {
            lemma_root_rounds(f.h(), f.inf(), q.pattern as nat, n, z);
            crate::rounding::lemma_is_nearest_root(f.h(), f.inf(), q.pattern as nat, n);
        }
        q
    }

    /// `self` in the format `g`.
    pub fn convert(self, f: Format, g: Format) -> (r: Parts)
        requires
            f.valid(),
            g.valid(),
        ensures
            r == converted(f, g, self),
            r.pattern <= g.top + g.hidden / 2,
    {
        proof {
            lemma_digits(f);
            lemma_digits(g);
        }
        if self.pattern > f.top {
            return Parts { negative: false, pattern: g.top + g.hidden / 2 };
        }
        if self.pattern == f.top {
            return Parts { negative: self.negative, pattern: g.top };
        }
        let (m, t) = split(f, self.pattern);
        let ghost a = mag(f.h(), self.pattern as nat);
        let ghost n = a * up(g.unit - f.unit);
        let ghost d = up(f.unit - g.unit);
        proof {
            lemma_up(f.unit - g.unit);
        }
        if m == 0 {
            proof {
                assert(n == 0) by (nonlinear_arith)
                    requires
                        n == a * up(g.unit - f.unit),
                        a == m * pow2(t as nat),
                        m == 0,
                ;
                lemma_zero(g, d);
            }
            return Parts { negative: self.negative, pattern: 0 };
        }
        let e: i32 = t as i32 + g.unit as i32 - f.unit as i32;
        proof {
            lemma_convert_shift(t as nat, g.unit - f.unit);
            assert(m * up(e as int) * d == n * up(-e)) by (nonlinear_arith)
                requires
                    n == m * pow2(t as nat) * up(g.unit - f.unit),
                    up(e as int) * d == pow2(t as nat) * up(g.unit - f.unit) * up(-e),
            ;
        }
        round_parts(g, self.negative, m, e, false, Ghost(n), Ghost(d))
    }

    /// The number nearest to a whole one.
    pub fn from_integer(f: Format, n: u64) -> (r: Parts)
        requires
            f.valid(),
        ensures
            r == rounded(f, false, n as nat * pow2(f.unit as nat), 1),
            r.pattern <= f.top + f.hidden / 2,
    {
        if n == 0 {
            proof {
                assert(n as nat * pow2(f.unit as nat) == 0) by (nonlinear_arith)
                    requires
                        n == 0,
                ;
                lemma_zero(f, 1);
            }
            return Parts { negative: false, pattern: 0 };
        }
        proof {
            lemma_digits(f);
            vstd::arithmetic::power2::lemma2_to64();
        }
        round_parts(
            f,
            false,
            n as u128,
            f.unit as i32,
            false,
            Ghost(n as nat * pow2(f.unit as nat)),
            Ghost(1),
        )
    }
}

proof fn lemma_convert_shift(t: nat, g: int)
    ensures
        up(t + g) * up(-g) == pow2(t) * up(g) * up(-(t + g)),
{
    vstd::arithmetic::power2::lemma2_to64();
    if g >= 0 {
        vstd::arithmetic::power2::lemma_pow2_adds(t, g as nat);
        assert(up(-g) == 1);
        assert(up(-(t + g)) == 1);
    } else {
        crate::rounding::lemma_shifted_power(t + g, (-g) as nat, t);
        assert(up(g) == 1);
        assert(up(t + g) * up(-g) == pow2(t) * up(g) * up(-(t + g))) by (nonlinear_arith)
            requires
                pow2(t) * up(-(t + g)) == pow2((-g) as nat) * up(t + g),
                up(-g) == pow2((-g) as nat),
                up(g) == 1,
        ;
    }
}

/// Patterns are ordered as the magnitudes.
pub proof fn lemma_order(f: Format, a: u64, b: u64)
    requires
        f.valid(),
    ensures
        a < b <==> mag(f.h(), a as nat) < mag(f.h(), b as nat),
        a == b <==> mag(f.h(), a as nat) == mag(f.h(), b as nat),
        mag(f.h(), 0) == 0,
        a > 0 ==> mag(f.h(), a as nat) > 0,
{
    lemma_top(f);
    if a < b {
        crate::rounding::lemma_mag_increasing(f.h(), a as nat, b as nat);
    }
    if b < a {
        crate::rounding::lemma_mag_increasing(f.h(), b as nat, a as nat);
    }
    if a > 0 {
        crate::rounding::lemma_mag_increasing(f.h(), 0, a as nat);
    }
    assert((0 - 0 * f.h()) * pow2(0) == 0) by (nonlinear_arith);
}

impl Parts {
    /// `self < other`.
    pub fn is_less(self, f: Format, other: Parts) -> (r: bool)
        requires
            f.valid(),
        ensures
            r == less(f, self, other),
    {
        proof {
            lemma_order(f, self.pattern, other.pattern);
            lemma_order(f, other.pattern, self.pattern);
        }
        if self.pattern > f.top || other.pattern > f.top {
            false
        } else if self.negative {
            if other.negative {
                self.pattern > other.pattern
            } else {
                self.pattern > 0 || other.pattern > 0
            }
        } else {
            !other.negative && self.pattern < other.pattern
        }
    }

    /// `self <= other`.
    pub fn is_at_most(self, f: Format, other: Parts) -> (r: bool)
        requires
            f.valid(),
        ensures
            r == at_most(f, self, other),
    {
        self.pattern <= f.top && other.pattern <= f.top && !other.is_less(f, self)
    }

    /// Whether `self` comes before `other` in the total order.
    pub fn ranks_below(self, other: Parts) -> (r: bool)
        ensures
            r == (rank(self) < rank(other)),
    {
        if self.negative {
            !other.negative || self.pattern > other.pattern
        } else {
            !other.negative && self.pattern < other.pattern
        }
    }

    /// The whole part of a number that is not below zero, at most `limit`.
    pub fn to_integer(self, f: Format, limit: u64) -> (r: u64)
        requires
            f.valid(),
        ensures
            r == whole_part(f, self, limit),
            r <= limit,
    {
        proof {
            lemma_digits(f);
            lemma_order(f, self.pattern, self.pattern);
        }
        if self.pattern > f.top {
            return 0;
        }
        if self.negative {
            proof {
                assert(self.units(f) <= 0);
            }
            return 0;
        }
        if self.pattern == f.top {
            return limit;
        }
        let (m, t) = split(f, self.pattern);
        let ghost a = mag(f.h(), self.pattern as nat);
        let ghost d = pow2(f.unit as nat);
        proof {
            vstd::arithmetic::power2::lemma_pow2_pos(f.unit as nat);
        }
        if t >= f.unit {
            let g: u32 = t - f.unit;
            proof {
                vstd::arithmetic::power2::lemma_pow2_adds(g as nat, f.unit as nat);
                vstd::arithmetic::power2::lemma_pow2_pos(g as nat);
                assert(a == (m * pow2(g as nat)) * d) by (nonlinear_arith)
                    requires
                        a == m * pow2(t as nat),
                        pow2(t as nat) == pow2(g as nat) * d,
                ;
                vstd::arithmetic::div_mod::lemma_div_multiples_vanish(
                    (m * pow2(g as nat)) as int,
                    d as int,
                );
                assert(a == d * (m * pow2(g as nat))) by (nonlinear_arith)
                    requires
                        a == (m * pow2(g as nat)) * d,
                ;
            }
            if g > 63 {
                proof {
                    vstd::arithmetic::power2::lemma2_to64();
                    vstd::arithmetic::power2::lemma2_to64_rest();
                    if g > 64 {
                        vstd::arithmetic::power2::lemma_pow2_strictly_increases(64, g as nat);
                    }
                    assert(m * pow2(g as nat) >= pow2(g as nat)) by (nonlinear_arith)
                        requires
                            m >= 1,
                            pow2(g as nat) > 0,
                    ;
                }
                return limit;
            }
            let w: u128 = power_of_two(g);
            proof {
                lemma_small_product(f, m, g);
            }
            let v: u128 = m * w;
            if v >= limit as u128 {
                limit
            } else {
                v as u64
            }
        } else {
            let g: u32 = f.unit - t;
            proof {
                vstd::arithmetic::power2::lemma_pow2_adds(g as nat, t as nat);
                vstd::arithmetic::power2::lemma_pow2_pos(g as nat);
                vstd::arithmetic::power2::lemma_pow2_pos(t as nat);
                vstd::arithmetic::div_mod::lemma_div_denominator(
                    a as int,
                    pow2(t as nat) as int,
                    pow2(g as nat) as int,
                );
                vstd::arithmetic::div_mod::lemma_div_multiples_vanish(
                    m as int,
                    pow2(t as nat) as int,
                );
                assert(a == pow2(t as nat) * m) by (nonlinear_arith)
                    requires
                        a == m * pow2(t as nat),
                ;
                assert(pow2(t as nat) * pow2(g as nat) == d) by (nonlinear_arith)
                    requires
                        d == pow2(g as nat) * pow2(t as nat),
                ;
            }
            if g > 63 {
                proof {
                    vstd::arithmetic::power2::lemma2_to64();
                    vstd::arithmetic::power2::lemma2_to64_rest();
                    if g > 64 {
                        vstd::arithmetic::power2::lemma_pow2_strictly_increases(64, g as nat);
                    }
                    vstd::arithmetic::div_mod::lemma_basic_div(
                        m as int,
                        pow2(g as nat) as int,
                    );
                }
                return 0;
            }
            let w: u128 = power_of_two(g);
            let v: u128 = m / w;
            if v >= limit as u128 {
                limit
            } else {
                v as u64
            }
        }
    }
}

/// Rounding stays within the patterns up to infinity.
pub proof fn lemma_rounded(f: Format, negative: bool, n: nat, d: nat)
    requires
        f.valid(),
        d > 0,
    ensures
        rounded(f, negative, n, d).pattern <= f.top,
        rounded(f, negative, n, d).pattern == nearest(f.h(), f.inf(), n, d),
{
    lemma_top(f);
    crate::rounding::lemma_nearest_exists(f.h(), f.inf(), n, d);
}

/// Adding keeps the order of what is added.
pub proof fn lemma_sum_monotone(f: Format, x: Parts, a: Parts, b: Parts)
    requires
        f.valid(),
        x.finite(f),
        a.finite(f),
        b.finite(f),
        a.units(f) <= b.units(f),
    ensures
        at_most(f, sum(f, x, a), sum(f, x, b)),
{
    lemma_top(f);
    let s = x.units(f) + a.units(f);
    let t = x.units(f) + b.units(f);
    let p = sum(f, x, a);
    let q = sum(f, x, b);
    if s < 0 {
        lemma_rounded(f, true, (-s) as nat, 1);
    } else {
        lemma_rounded(f, false, s as nat, 1);
    }
    if t < 0 {
        lemma_rounded(f, true, (-t) as nat, 1);
        crate::rounding::lemma_nearest_monotone(f.h(), f.inf(), (-t) as nat, (-s) as nat, 1);
    } else {
        lemma_rounded(f, false, t as nat, 1);
        if s > 0 {
            crate::rounding::lemma_nearest_monotone(f.h(), f.inf(), s as nat, t as nat, 1);
        }
    }
    lemma_order(f, p.pattern, q.pattern);
    lemma_order(f, q.pattern, p.pattern);
}

/// Operations on numbers that give numbers.
pub proof fn lemma_numbers(f: Format, a: Parts, b: Parts)
    requires
        f.valid(),
        !a.nan(f),
        b.finite(f),
    ensures
        !sum(f, a, b).nan(f),
        sum(f, a, b).pattern <= f.top,
        b.pattern > 0 ==> !product(f, a, b).nan(f) && product(f, a, b).pattern <= f.top,
        b.pattern > 0 ==> !quotient(f, a, b).nan(f) && quotient(f, a, b).pattern <= f.top,
{
    lemma_top(f);
    vstd::arithmetic::power2::lemma_pow2_pos(f.unit as nat);
    lemma_order(f, b.pattern, b.pattern);
    let s = a.units(f) + b.units(f);
    if s >= 0 {
        lemma_rounded(f, false, s as nat, 1);
    } else {
        lemma_rounded(f, true, (-s) as nat, 1);
    }
    let negative = a.negative != b.negative;
    lemma_rounded(
        f,
        negative,
        a.magnitude(f) * b.magnitude(f),
        pow2(f.unit as nat),
    );
    if b.pattern > 0 {
        lemma_rounded(
            f,
            negative,
            a.magnitude(f) * pow2(f.unit as nat),
            b.magnitude(f),
        );
    }
}

/// Multiplying by what is not negative keeps the order.
pub proof fn lemma_product_monotone(f: Format, a: Parts, b: Parts, c: Parts)
    requires
        f.valid(),
        a.finite(f),
        b.finite(f),
        c.finite(f),
        !c.negative,
        a.units(f) <= b.units(f),
    ensures
        product(f, a, c).units(f) <= product(f, b, c).units(f),
{
    lemma_top(f);
    let d = pow2(f.unit as nat);
    vstd::arithmetic::power2::lemma_pow2_pos(f.unit as nat);
    let x = a.magnitude(f);
    let y = b.magnitude(f);
    let z = c.magnitude(f);
    let p = product(f, a, c);
    let q = product(f, b, c);
    lemma_rounded(f, a.negative, x * z, d);
    lemma_rounded(f, b.negative, y * z, d);
    if x <= y {
        assert(x * z <= y * z) by (nonlinear_arith)
            requires
                x <= y,
                z >= 0,
        ;
        crate::rounding::lemma_nearest_monotone(f.h(), f.inf(), x * z, y * z, d);
    }
    if y <= x {
        assert(y * z <= x * z) by (nonlinear_arith)
            requires
                y <= x,
                z >= 0,
        ;
        crate::rounding::lemma_nearest_monotone(f.h(), f.inf(), y * z, x * z, d);
    }
    lemma_order(f, p.pattern, q.pattern);
    lemma_order(f, q.pattern, p.pattern);
    if !a.negative && b.negative {
        assert(x == 0 && y == 0);
        assert(x * z == 0 && y * z == 0) by (nonlinear_arith)
            requires
                x == 0,
                y == 0,
        ;
        lemma_zero(f, d);
    }
}

/// Finite summands can change places.
pub proof fn lemma_sum_symmetric(f: Format, a: Parts, b: Parts)
    requires
        a.finite(f),
        b.finite(f),
    ensures
        sum(f, a, b) == sum(f, b, a),
{
}

/// A sum that is far enough from zero stays so when it is rounded.
pub proof fn lemma_sum_bound(f: Format, a: Parts, b: Parts, k: u64)
    requires
        f.valid(),
        a.finite(f),
        b.finite(f),
        k <= f.top,
    ensures
        a.units(f) + b.units(f) >= mag(f.h(), k as nat) ==> sum(f, a, b).units(f) >= mag(
            f.h(),
            k as nat,
        ),
        0 <= a.units(f) + b.units(f) <= mag(f.h(), k as nat) ==> sum(f, a, b).units(f) <= mag(
            f.h(),
            k as nat,
        ),
        a.units(f) + b.units(f) <= -mag(f.h(), k as nat) ==> sum(f, a, b).units(f) <= -mag(
            f.h(),
            k as nat,
        ),
{
    lemma_top(f);
    let s = a.units(f) + b.units(f);
    let r = sum(f, a, b);
    let n = if s < 0 {
        (-s) as nat
    } else {
        s as nat
    };
    lemma_rounded(f, s < 0, n, 1);
    crate::rounding::lemma_nearest_bound(f.h(), f.inf(), n, 1, k as nat);
    lemma_order(f, r.pattern, k);
    lemma_order(f, k, r.pattern);
    lemma_order(f, 0, k);
}

/// A product that is far enough from zero stays so when it is rounded.
pub proof fn lemma_product_bound(f: Format, a: Parts, b: Parts, k: u64)
    requires
        f.valid(),
        a.finite(f),
        b.finite(f),
        k <= f.top,
        a.magnitude(f) * b.magnitude(f) >= mag(f.h(), k as nat) * pow2(f.unit as nat),
    ensures
        product(f, a, b).magnitude(f) >= mag(f.h(), k as nat),
        product(f, a, b).negative == (a.negative != b.negative),
        !product(f, a, b).nan(f),
{
    lemma_top(f);
    let d = pow2(f.unit as nat);
    vstd::arithmetic::power2::lemma_pow2_pos(f.unit as nat);
    let n = a.magnitude(f) * b.magnitude(f);
    let r = product(f, a, b);
    lemma_rounded(f, a.negative != b.negative, n, d);
    crate::rounding::lemma_nearest_bound(f.h(), f.inf(), n, d, k as nat);
    lemma_order(f, r.pattern, k);
    lemma_order(f, k, r.pattern);
}

/// The square root of what is at least, or at most, the square of a number is
/// at least, or at most, that number when it is rounded.
pub proof fn lemma_root_bound(f: Format, a: Parts, k: u64)
    requires
        f.valid(),
        a.finite(f),
        !a.negative,
        a.pattern > 0,
        k <= f.top,
    ensures
        !root(f, a).negative,
        root(f, a).pattern <= f.top,
        ({
            let n = a.magnitude(f) * pow2(f.unit as nat);
            let m = mag(f.h(), k as nat);
            &&& n >= m * m ==> root(f, a).pattern >= k
            &&& n <= m * m ==> root(f, a).pattern <= k
        }),
{
    lemma_top(f);
    let h = f.h();
    let top = f.inf();
    let n = a.magnitude(f) * pow2(f.unit as nat);
    let m = mag(h, k as nat);
    let z = lemma_floor_root(4 * n);
    let (num, den) = if z * z == 4 * n {
        (z, 2nat)
    } else {
        ((2 * z + 1) as nat, 4nat)
    };
    crate::rounding::lemma_nearest_exists(h, top, num, den);
    let p = nearest(h, top, num, den);
    lemma_root_rounds(h, top, p, n, z);
    crate::rounding::lemma_is_nearest_root(h, top, p, n);
    crate::rounding::lemma_nearest_bound(h, top, num, den, k as nat);
    if n >= m * m {
        assert(z >= 2 * m) by (nonlinear_arith)
            requires
                n >= m * m,
                4 * n < (z + 1) * (z + 1),
                z >= 0,
                m >= 0,
        ;
    }
    if n <= m * m {
        assert(z <= 2 * m) by (nonlinear_arith)
            requires
                n <= m * m,
                z * z <= 4 * n,
                z >= 0,
                m >= 0,
        ;
        if z * z < 4 * n {
            assert(z < 2 * m) by (nonlinear_arith)
                requires
                    n <= m * m,
                    z * z < 4 * n,
                    z >= 0,
                    m >= 0,
            ;
        }
    }
}

} // verus!
