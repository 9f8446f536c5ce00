//! Round-to-nearest-even onto the grid of a binary floating-point format.
//!
//! A format is described by its hidden bit `h` (a power of two) and by the
//! pattern `top` of infinity. Non-negative patterns `0, 1, 2, ..., top` are
//! ordered as the magnitudes that they stand for, so "the nearest
//! representable number" is a statement about neighbouring patterns and
//! needs no separate treatment of exponents, subnormal numbers or overflow.
//! Magnitudes are counted in units of the smallest positive number of the
//! format, which makes every one of them an integer.

use vstd::arithmetic::power2::pow2;
use vstd::prelude::*;

verus! {

/// Exponent of the last place of pattern `k`, counted from the smallest
/// positive number.
pub open spec fn place(h: nat, k: nat) -> nat {
    if k < h {
        0
    } else {
        (k / h - 1) as nat
    }
}

/// Magnitude of pattern `k`, in units of the smallest positive number.
pub open spec fn mag(h: nat, k: nat) -> nat {
    ((k - place(h, k) * h) * pow2(place(h, k))) as nat
}

/// `k` is the pattern nearest to `n / d`; a tie goes to the even pattern.
/// Beyond the midpoint above the largest finite number this is `top`.
pub open spec fn is_nearest(h: nat, top: nat, k: nat, n: nat, d: nat) -> bool {
    &&& k <= top
    &&& k > 0 ==> 2 * n >= d * (mag(h, (k - 1) as nat) + mag(h, k))
    &&& k > 0 && 2 * n == d * (mag(h, (k - 1) as nat) + mag(h, k)) ==> k % 2 == 0
    &&& k < top ==> 2 * n <= d * (mag(h, k) + mag(h, k + 1))
    &&& k < top && 2 * n == d * (mag(h, k) + mag(h, k + 1)) ==> k % 2 == 0
}

/// The pattern nearest to `n / d`.
pub open spec fn nearest(h: nat, top: nat, n: nat, d: nat) -> nat {
    choose|k: nat| is_nearest(h, top, k, n, d)
}

/// `k` is the pattern nearest to the square root of `n`.
pub open spec fn is_nearest_root(h: nat, top: nat, k: nat, n: nat) -> bool {
    &&& k <= top
    &&& k > 0 ==> {
        let s = mag(h, (k - 1) as nat) + mag(h, k);
        4 * n >= s * s && (4 * n == s * s ==> k % 2 == 0)
    }
    &&& k < top ==> {
        let s = mag(h, k) + mag(h, k + 1);
        4 * n <= s * s && (4 * n == s * s ==> k % 2 == 0)
    }
}

/// The pattern nearest to the square root of `n`.
pub open spec fn nearest_root(h: nat, top: nat, n: nat) -> nat {
    choose|k: nat| is_nearest_root(h, top, k, n)
}

/// A pattern written as last-place exponent and significand.
pub proof fn lemma_mag_parts(h: nat, t: nat, m: nat)
    requires
        h > 0,
        m <= 2 * h,
        t > 0 ==> m >= h,
    ensures
        mag(h, t * h + m) == m * pow2(t),
{
    let k = t * h + m;
    if m == 2 * h {
        assert(k == (t + 2) * h) by (nonlinear_arith)
            requires
                k == t * h + m,
                m == 2 * h,
        ;
        assert(k / h == t + 2) by (nonlinear_arith)
            requires
                k == (t + 2) * h,
                h > 0,
        ;
        assert(k >= h) by (nonlinear_arith)
            requires
                k == (t + 2) * h,
                h > 0,
                t >= 0,
        ;
        assert(place(h, k) == t + 1);
        vstd::arithmetic::power2::lemma_pow2_unfold((t + 1) as nat);
        assert(k - (t + 1) * h == h) by (nonlinear_arith)
            requires
                k == (t + 2) * h,
        ;
        assert(h * pow2((t + 1) as nat) == m * pow2(t)) by (nonlinear_arith)
            requires
                pow2((t + 1) as nat) == 2 * pow2(t),
                m == 2 * h,
        ;
    } else if t == 0 && m < h {
        assert(t * h == 0) by (nonlinear_arith)
            requires
                t == 0,
        ;
        assert(place(h, k) == 0);
        assert((k - 0 * h) == m);
    } else {
        assert(k / h == t + 1) by (nonlinear_arith)
            requires
                k == t * h + m,
                h <= m < 2 * h,
                h > 0,
        ;
        assert(k >= h) by (nonlinear_arith)
            requires
                k == t * h + m,
                h <= m,
                t >= 0,
        ;
        assert(place(h, k) == t);
        assert(k - t * h == m);
    }
}

/// The significand of a pattern, and the range that it lies in.
pub proof fn lemma_parts(h: nat, k: nat)
    requires
        h > 0,
    ensures
        place(h, k) * h <= k,
        k - place(h, k) * h < 2 * h,
        place(h, k) > 0 ==> k - place(h, k) * h >= h,
        mag(h, k) == (k - place(h, k) * h) * pow2(place(h, k)),
{
    vstd::arithmetic::power2::lemma_pow2_pos(place(h, k));
    if k < h {
        assert(place(h, k) * h == 0) by (nonlinear_arith)
            requires
                place(h, k) == 0,
        ;
        assert(k * pow2(0) >= 0) by (nonlinear_arith)
            requires
                pow2(0) > 0,
        ;
    } else {
        let q = k / h;
        assert(q * h <= k < (q + 1) * h && q >= 1) by (nonlinear_arith)
            requires
                q == k / h,
                h > 0,
                k >= h,
        ;
        assert((q - 1) * h == q * h - h) by (nonlinear_arith);
        assert((q + 1) * h == q * h + h) by (nonlinear_arith);
        assert((k - (q - 1) * h) * pow2((q - 1) as nat) >= 0) by (nonlinear_arith)
            requires
                k - (q - 1) * h >= 0,
                pow2((q - 1) as nat) > 0,
        ;
    }
}

/// One pattern up is one last place up.
pub proof fn lemma_mag_step(h: nat, k: nat)
    requires
        h > 0,
    ensures
        mag(h, k + 1) == mag(h, k) + pow2(place(h, k)),
{
    lemma_parts(h, k);
    let t = place(h, k);
    let m = (k - t * h) as nat;
    lemma_mag_parts(h, t, m);
    lemma_mag_parts(h, t, m + 1);
    assert((m + 1) * pow2(t) == m * pow2(t) + pow2(t)) by (nonlinear_arith);
}

/// Magnitudes grow with their patterns.
pub proof fn lemma_mag_increasing(h: nat, a: nat, b: nat)
    requires
        h > 0,
        a < b,
    ensures
        mag(h, a) < mag(h, b),
    decreases b - a,
{
    lemma_mag_step(h, (b - 1) as nat);
    vstd::arithmetic::power2::lemma_pow2_pos(place(h, (b - 1) as nat));
    if a < b - 1 {
        lemma_mag_increasing(h, a, (b - 1) as nat);
    }
}

/// A number has one nearest pattern.
pub proof fn lemma_nearest_unique(h: nat, top: nat, a: nat, b: nat, n: nat, d: nat)
    requires
        h > 0,
        d > 0,
        is_nearest(h, top, a, n, d),
        is_nearest(h, top, b, n, d),
    ensures
        a == b,
{
    lemma_nearest_not_below(h, top, a, b, n, d);
    lemma_nearest_not_below(h, top, b, a, n, d);
}

proof fn lemma_nearest_not_below(h: nat, top: nat, a: nat, b: nat, n: nat, d: nat)
    requires
        h > 0,
        d > 0,
        is_nearest(h, top, a, n, d),
        is_nearest(h, top, b, n, d),
    ensures
        a >= b,
{
    let sa = mag(h, a) + mag(h, a + 1);
    let sb = mag(h, (b - 1) as nat) + mag(h, b);
    if a + 1 == b {
        assert(2 * n == d * sa);
    } else if a < b {
        lemma_mag_increasing(h, a, (b - 1) as nat);
        lemma_mag_increasing(h, a + 1, b);
        assert(d * sa < d * sb) by (nonlinear_arith)
            requires
                sa < sb,
                d > 0,
        ;
    }
}

/// The pattern that satisfies [`is_nearest`] is [`nearest`].
pub proof fn lemma_is_nearest(h: nat, top: nat, k: nat, n: nat, d: nat)
    requires
        h > 0,
        d > 0,
        is_nearest(h, top, k, n, d),
    ensures
        nearest(h, top, n, d) == k,
{
    lemma_nearest_unique(h, top, k, nearest(h, top, n, d), n, d);
}

/// The pattern that satisfies [`is_nearest_root`] is [`nearest_root`].
pub proof fn lemma_is_nearest_root(h: nat, top: nat, k: nat, n: nat)
    requires
        h > 0,
        is_nearest_root(h, top, k, n),
    ensures
        nearest_root(h, top, n) == k,
{
    let other = nearest_root(h, top, n);
    lemma_root_not_below(h, top, k, other, n);
    lemma_root_not_below(h, top, other, k, n);
}

proof fn lemma_root_not_below(h: nat, top: nat, a: nat, b: nat, n: nat)
    requires
        h > 0,
        is_nearest_root(h, top, a, n),
        is_nearest_root(h, top, b, n),
    ensures
        a >= b,
{
    let sa = mag(h, a) + mag(h, a + 1);
    let sb = mag(h, (b - 1) as nat) + mag(h, b);
    if a + 1 == b {
        assert(4 * n == sa * sa);
    } else if a < b {
        lemma_mag_increasing(h, a, (b - 1) as nat);
        lemma_mag_increasing(h, a + 1, b);
        assert(sa * sa < sb * sb) by (nonlinear_arith)
            requires
                0 <= sa < sb,
        ;
    }
}

/// There is a nearest pattern among those up to `k`, where nothing above `k`
/// is nearer.
proof fn lemma_nearest_below(h: nat, top: nat, k: nat, n: nat, d: nat) -> (r: nat)
    requires
        h > 0,
        d > 0,
        k <= top,
        k < top ==> 2 * n < d * (mag(h, k) + mag(h, k + 1)) || (2 * n == d * (mag(h, k) + mag(
            h,
            k + 1,
        )) && k % 2 == 0),
    ensures
        is_nearest(h, top, r, n, d),
    decreases k,
{
    if k == 0 {
        0
    } else {
        let s = d * (mag(h, (k - 1) as nat) + mag(h, k));
        if 2 * n > s || (2 * n == s && k % 2 == 0) {
            k
        } else {
            lemma_nearest_below(h, top, (k - 1) as nat, n, d)
        }
    }
}

/// Every number has a nearest pattern.
pub proof fn lemma_nearest_exists(h: nat, top: nat, n: nat, d: nat)
    requires
        h > 0,
        d > 0,
    ensures
        is_nearest(h, top, nearest(h, top, n, d), n, d),
{
    let r = lemma_nearest_below(h, top, top, n, d);
    lemma_is_nearest(h, top, r, n, d);
}

/// Rounding keeps the order.
pub proof fn lemma_nearest_monotone(h: nat, top: nat, m: nat, n: nat, d: nat)
    requires
        h > 0,
        d > 0,
        m <= n,
    ensures
        nearest(h, top, m, d) <= nearest(h, top, n, d),
{
    lemma_nearest_exists(h, top, m, d);
    lemma_nearest_exists(h, top, n, d);
    let a = nearest(h, top, m, d);
    let b = nearest(h, top, n, d);
    if m < n && b < a {
        // `a` is at least the midpoint below it, `b` at most the one above it.
        let low = mag(h, b) + mag(h, b + 1);
        let high = mag(h, (a - 1) as nat) + mag(h, a);
        if b < a - 1 {
            lemma_mag_increasing(h, b, (a - 1) as nat);
        }
        if b + 1 < a {
            lemma_mag_increasing(h, b + 1, a);
        }
        assert(d * low <= d * high) by (nonlinear_arith)
            requires
                low <= high,
                d > 0,
        ;
    }
}

/// A representable number rounds to itself.
pub proof fn lemma_representable(h: nat, top: nat, k: nat, d: nat)
    requires
        h > 0,
        d > 0,
        k <= top,
    ensures
        nearest(h, top, mag(h, k) * d, d) == k,
{
    let n = mag(h, k) * d;
    if k > 0 {
        let a = mag(h, (k - 1) as nat);
        let b = mag(h, k);
        lemma_mag_increasing(h, (k - 1) as nat, k);
        assert(2 * n > d * (a + b)) by (nonlinear_arith)
            requires
                n == b * d,
                a < b,
                d > 0,
        ;
    }
    let b = mag(h, k);
    let c = mag(h, k + 1);
    lemma_mag_increasing(h, k, k + 1);
    assert(2 * n < d * (b + c)) by (nonlinear_arith)
        requires
            n == b * d,
            b < c,
            d > 0,
    ;
    lemma_is_nearest(h, top, k, n, d);
}


/// `2^n` as a machine integer.
pub(crate) fn power_of_two(n: u32) -> (p: u128)
    requires
        n <= 126,
    ensures
        p == pow2(n as nat),
{
    proof {
        lemma_shift(n);
    }
    1u128 << n
}

proof fn lemma_shift(n: u32)
    requires
        n <= 126,
    ensures
        (1u128 << n) == pow2(n as nat),
    decreases n,
{
    if n == 0 {
        assert(1u128 << 0u32 == 1) by (bit_vector);
        vstd::arithmetic::power2::lemma2_to64();
    } else {
        let below = (n - 1) as u32;
        lemma_shift(below);
        assert((1u128 << n) == 2 * (1u128 << below)) by (bit_vector)
            requires
                0 < n <= 126,
                below == n - 1,
        ;
        vstd::arithmetic::power2::lemma_pow2_unfold(n as nat);
    }
}

/// Number of binary digits of `m`.
pub(crate) fn bit_length(m: u128) -> (l: u32)
    requires
        0 < m < pow2(126),
    ensures
        1 <= l <= 126,
        pow2((l - 1) as nat) <= m < pow2(l as nat),
{
    let mut low: u32 = 0;
    let mut high: u32 = 126;
    proof {
        vstd::arithmetic::power2::lemma2_to64();
    }
    while low + 1 < high
        invariant
            low < high <= 126,
            pow2(low as nat) <= m < pow2(high as nat),
        decreases high - low,
    {
        let mid: u32 = (low + high) / 2;
        if m >= power_of_two(mid) {
            low = mid;
        } else {
            high = mid;
        }
    }
    high
}

/// What the significand `m` and the exponent `t` must satisfy to be the
/// rounded form of `n / d`.
proof fn lemma_rounded(h: nat, top: nat, t: nat, m: nat, n: nat, d: nat)
    requires
        h > 0,
        h % 2 == 0,
        top > 0,
        top % 2 == 0,
        d > 0,
        m <= 2 * h,
        t > 0 ==> m >= h,
        t > 0 && m == h ==> n >= h * pow2(t) * d,
        2 * n >= (2 * m - 1) * pow2(t) * d,
        2 * n <= (2 * m + 1) * pow2(t) * d,
        m > 0 && 2 * n == (2 * m - 1) * pow2(t) * d ==> m % 2 == 0,
        2 * n == (2 * m + 1) * pow2(t) * d ==> m % 2 == 0,
    ensures
        is_nearest(h, top, if t * h + m <= top { (t * h + m) as nat } else { top }, n, d),
{
    let p = pow2(t);
    let k = (t * h + m) as nat;
    vstd::arithmetic::power2::lemma_pow2_pos(t);
    lemma_mag_parts(h, t, m);
    assert(k % 2 == m % 2) by {
        let half = h / 2;
        assert(t * h == 2 * (t * half)) by (nonlinear_arith)
            requires
                h == 2 * half,
        ;
    }
    // The midpoint below.
    if k > 0 {
        if m > h || t == 0 {
            if m == 0 {
                assert(t * h == 0) by (nonlinear_arith)
                    requires
                        t == 0,
                ;
            }
            lemma_mag_parts(h, t, (m - 1) as nat);
            assert((m - 1) * p + m * p == (2 * m - 1) * p) by (nonlinear_arith);
        } else {
            // `m == h`: the neighbour below is half a place closer.
            let below = (t - 1) as nat;
            lemma_mag_parts(h, below, (2 * h - 1) as nat);
            assert(below * h + (2 * h - 1) == k - 1) by (nonlinear_arith)
                requires
                    below == t - 1,
                    k == t * h + h,
            ;
            vstd::arithmetic::power2::lemma_pow2_unfold(t);
            vstd::arithmetic::power2::lemma_pow2_pos(below);
            let s = mag(h, (k - 1) as nat) + mag(h, k);
            assert(s < 2 * (h * p)) by (nonlinear_arith)
                requires
                    s == (2 * h - 1) * pow2(below) + h * p,
                    p == 2 * pow2(below),
                    pow2(below) > 0,
            ;
            assert(d * s < 2 * (h * p * d)) by (nonlinear_arith)
                requires
                    s < 2 * (h * p),
                    d > 0,
            ;
        }
        let s = mag(h, (k - 1) as nat) + mag(h, k);
        assert(2 * n >= d * s && (2 * n == d * s ==> k % 2 == 0)) by {
            if m > h || t == 0 {
                assert(d * ((2 * m - 1) * p) == (2 * m - 1) * p * d) by (nonlinear_arith);
            }
        }
    }
    // The midpoint above.
    lemma_mag_step(h, k);
    let u = mag(h, k) + mag(h, k + 1);
    if m < 2 * h {
        lemma_mag_parts(h, t, m + 1);
        assert(m * p + (m + 1) * p == (2 * m + 1) * p) by (nonlinear_arith);
        assert(d * ((2 * m + 1) * p) == (2 * m + 1) * p * d) by (nonlinear_arith);
    } else {
        assert(k == (t + 1) * h + h) by (nonlinear_arith)
            requires
                k == t * h + m,
                m == 2 * h,
        ;
        lemma_mag_parts(h, t + 1, h + 1);
        vstd::arithmetic::power2::lemma_pow2_unfold((t + 1) as nat);
        assert(u > (2 * m + 1) * p) by (nonlinear_arith)
            requires
                u == m * p + (h + 1) * pow2((t + 1) as nat),
                pow2((t + 1) as nat) == 2 * p,
                m == 2 * h,
                p > 0,
        ;
        assert((2 * m + 1) * p * d < d * u) by (nonlinear_arith)
            requires
                u > (2 * m + 1) * p,
                d > 0,
        ;
    }
    assert(2 * n <= d * u && (2 * n == d * u ==> k % 2 == 0));
    if k > top {
        // Far above: compare with the midpoint below `k`.
        lemma_mag_increasing(h, (top - 1) as nat, (k - 1) as nat);
        lemma_mag_increasing(h, top, k);
        let s = mag(h, (k - 1) as nat) + mag(h, k);
        let w = mag(h, (top - 1) as nat) + mag(h, top);
        assert(d * w < d * s) by (nonlinear_arith)
            requires
                w < s,
                d > 0,
        ;
    }
}

/// Positive power of two of an exponent, `1` for a negative one.
pub open spec fn up(e: int) -> nat {
    if e >= 0 {
        pow2(e as nat)
    } else {
        1
    }
}

pub proof fn lemma_shifted_power(e: int, s: nat, t: nat)
    requires
        t == s + e,
    ensures
        pow2(t) * up(-e) == pow2(s) * up(e),
{
    vstd::arithmetic::power2::lemma2_to64();
    if e >= 0 {
        vstd::arithmetic::power2::lemma_pow2_adds(s, e as nat);
        if e == 0 {
        }
    } else {
        vstd::arithmetic::power2::lemma_pow2_adds(t, (-e) as nat);
    }
}

/// With few enough digits nothing is lost.
proof fn lemma_exact(
    h: nat,
    p: nat,
    top: nat,
    m: nat,
    l: nat,
    e: int,
    sticky: bool,
    t: nat,
    w: nat,
    n: nat,
    d: nat,
)
    requires
        p >= 2,
        h == pow2((p - 1) as nat),
        top > 0,
        top % 2 == 0,
        d > 0,
        l >= 1,
        pow2((l - 1) as nat) <= m < pow2(l),
        t == if l + e - p > 0 { l + e - p } else { 0 },
        t <= e,
        w == pow2((e - t) as nat),
        !sticky ==> m * up(e) * d == n * up(-e),
        sticky ==> m >= 4 * h,
    ensures
        m * w <= 2 * h,
        is_nearest(h, top, if t * h + m * w <= top { (t * h + m * w) as nat } else { top }, n, d),
{
    vstd::arithmetic::power2::lemma2_to64();
    let x = (e - t) as nat;
    assert(l + x <= p);
    vstd::arithmetic::power2::lemma_pow2_pos(x);
    vstd::arithmetic::power2::lemma_pow2_unfold(p);
    if sticky {
        vstd::arithmetic::power2::lemma_pow2_unfold((p + 1) as nat);
        if l < p + 1 {
            vstd::arithmetic::power2::lemma_pow2_strictly_increases(l, (p + 1) as nat);
        }
        assert(false);
    }
    let mant = (m * w) as nat;
    assert(mant <= 2 * h) by {
        vstd::arithmetic::power2::lemma_pow2_adds(l, x);
        assert(m * w < pow2(l) * w) by (nonlinear_arith)
            requires
                m < pow2(l),
                w > 0,
        ;
        if l + x < p {
            vstd::arithmetic::power2::lemma_pow2_strictly_increases((l + x) as nat, p);
        }
    }
    if t > 0 {
        vstd::arithmetic::power2::lemma_pow2_adds((l - 1) as nat, x);
        assert((l - 1) + x == p - 1);
        assert(mant >= h) by (nonlinear_arith)
            requires
                mant == m * w,
                m >= pow2((l - 1) as nat),
                h == pow2((l - 1) as nat) * w,
                w > 0,
        ;
    }
    assert(n == mant * pow2(t) * d) by {
        vstd::arithmetic::power2::lemma_pow2_adds(x, t);
        assert(up(e) == w * pow2(t));
        assert(up(-e) == 1);
        assert(m * (w * pow2(t)) * d == m * w * pow2(t) * d) by (nonlinear_arith);
    }
    vstd::arithmetic::power2::lemma_pow2_pos(t);
    let u = pow2(t) * d;
    assert(u > 0) by (nonlinear_arith)
        requires
            u == pow2(t) * d,
            pow2(t) > 0,
            d > 0,
    ;
    assert(mant * pow2(t) * d == mant * u) by (nonlinear_arith)
        requires
            u == pow2(t) * d,
    ;
    assert((2 * mant - 1) * pow2(t) * d == 2 * (mant * u) - u) by (nonlinear_arith)
        requires
            u == pow2(t) * d,
    ;
    assert((2 * mant + 1) * pow2(t) * d == 2 * (mant * u) + u) by (nonlinear_arith)
        requires
            u == pow2(t) * d,
    ;
    vstd::arithmetic::power2::lemma_pow2_pos((p - 1) as nat);
    vstd::arithmetic::power2::lemma_pow2_unfold((p - 1) as nat);
    lemma_rounded(h, top, t, mant, n, d);
}

/// Less than half of the smallest positive number rounds to zero.
proof fn lemma_vanishes(h: nat, top: nat, m: nat, e: int, sticky: bool, n: nat, d: nat)
    requires
        h > 0,
        h % 2 == 0,
        top > 0,
        top % 2 == 0,
        d > 0,
        m < pow2(126),
        e <= -127,
        !sticky ==> m * up(e) * d == n * up(-e),
        sticky ==> n * up(-e) < (m + 1) * up(e) * d,
    ensures
        is_nearest(h, top, 0, n, d),
{
    let f = up(-e);
    vstd::arithmetic::power2::lemma_pow2_unfold(127);
    if -e > 127 {
        vstd::arithmetic::power2::lemma_pow2_strictly_increases(127, (-e) as nat);
    }
    assert(f >= 2 * pow2(126));
    assert(n * f < (m + 1) * d || n * f == m * d) by {
        assert(m * 1 * d == m * d);
        assert((m + 1) * 1 * d == (m + 1) * d);
    }
    assert(2 * n < d) by (nonlinear_arith)
        requires
            n * f < (m + 1) * d || n * f == m * d,
            f >= 2 * pow2(126),
            m < pow2(126),
            d > 0,
            n >= 0,
    {
        if 2 * n >= d {
            assert(2 * n * f >= d * f);
            assert(d * f >= 2 * d * (m + 1));
        }
    }
    vstd::arithmetic::power2::lemma2_to64();
    assert((2 * 0 - 1) * pow2(0) * d == -d) by (nonlinear_arith)
        requires
            pow2(0) == 1,
    ;
    assert((2 * 0 + 1) * pow2(0) * d == d) by (nonlinear_arith)
        requires
            pow2(0) == 1,
    ;
    lemma_rounded(h, top, 0, 0, n, d);
}

/// Dropping digits and rounding to nearest.
proof fn lemma_rounds(
    h: nat,
    p: nat,
    top: nat,
    m: nat,
    l: nat,
    e: int,
    sticky: bool,
    t: nat,
    s: nat,
    q: nat,
    r: nat,
    mant: nat,
    n: nat,
    d: nat,
)
    requires
        p >= 2,
        h == pow2((p - 1) as nat),
        top > 0,
        top % 2 == 0,
        d > 0,
        l >= 1,
        pow2((l - 1) as nat) <= m < pow2(l),
        t == if l + e - p > 0 { l + e - p } else { 0 },
        t == s + e,
        s > 0,
        m == q * pow2(s) + r,
        r < pow2(s),
        mant == if r > pow2((s - 1) as nat) || (r == pow2((s - 1) as nat) && (sticky || q % 2 == 1)) {
            q + 1
        } else {
            q
        },
        !sticky ==> m * up(e) * d == n * up(-e),
        sticky ==> m * up(e) * d < n * up(-e) < (m + 1) * up(e) * d,
    ensures
        mant <= 2 * h,
        is_nearest(h, top, if t * h + mant <= top { (t * h + mant) as nat } else { top }, n, d),
{
    let w = pow2(s);
    let half = pow2((s - 1) as nat);
    vstd::arithmetic::power2::lemma_pow2_unfold(s);
    vstd::arithmetic::power2::lemma_pow2_pos((s - 1) as nat);
    vstd::arithmetic::power2::lemma_pow2_unfold(p);
    vstd::arithmetic::power2::lemma_pow2_unfold((p - 1) as nat);
    // Range of the quotient.
    assert(q < 2 * h) by {
        vstd::arithmetic::power2::lemma_pow2_adds(p, s);
        if l < p + s {
            vstd::arithmetic::power2::lemma_pow2_strictly_increases(l, (p + s) as nat);
        }
        assert(q < 2 * h) by (nonlinear_arith)
            requires
                m == q * w + r,
                r >= 0,
                m < pow2(p) * w,
                pow2(p) == 2 * h,
                w > 0,
        ;
    }
    if t > 0 {
        assert(l - 1 == (p - 1) + s);
        vstd::arithmetic::power2::lemma_pow2_adds((p - 1) as nat, s);
        assert(q >= h) by (nonlinear_arith)
            requires
                m == q * w + r,
                r < w,
                m >= h * w,
                w > 0,
        ;
    }
    // Everything is compared in units of `up(e) * d`.
    let f = up(-e);
    let x = (up(e) * d) as nat;
    let pt = pow2(t);
    lemma_shifted_power(e, s, t);
    vstd::arithmetic::power2::lemma_pow2_pos(t);
    if e >= 0 {
        vstd::arithmetic::power2::lemma_pow2_pos(e as nat);
    } else {
        vstd::arithmetic::power2::lemma_pow2_pos((-e) as nat);
    }
    if e == 0 {
        vstd::arithmetic::power2::lemma2_to64();
    }
    assert(f > 0 && up(e) > 0);
    assert(x > 0) by (nonlinear_arith)
        requires
            x == up(e) * d,
            up(e) > 0,
            d > 0,
    ;
    assert(m * up(e) * d == m * x) by (nonlinear_arith)
        requires
            x == up(e) * d,
    ;
    assert((m + 1) * up(e) * d == (m + 1) * x) by (nonlinear_arith)
        requires
            x == up(e) * d,
    ;
    assert forall|c: int| #[trigger] (c * pt * d) * f == c * w * x by {
        assert((c * pt * d) * f == c * (pt * f) * d) by (nonlinear_arith);
        assert(c * (w * up(e)) * d == c * w * (up(e) * d)) by (nonlinear_arith);
    }
    let a = 2 * mant - 1;
    let b = 2 * mant + 1;
    assert((a * pt * d) * f == a * w * x);
    assert((b * pt * d) * f == b * w * x);
    assert(2 * m * x == 2 * (m * x)) by (nonlinear_arith);
    // The midpoint below.
    assert(2 * m >= a * w) by (nonlinear_arith)
        requires
            a == 2 * mant - 1,
            m == q * w + r,
            mant == q || (mant == q + 1 && 2 * r >= w),
            w > 0,
            r >= 0,
    ;
    assert(2 * m * x >= a * w * x) by (nonlinear_arith)
        requires
            2 * m >= a * w,
            x > 0,
    ;
    assert(2 * n >= a * pt * d) by (nonlinear_arith)
        requires
            n * f >= m * x,
            2 * m * x >= a * w * x,
            (a * pt * d) * f == a * w * x,
            f > 0,
    {
        assert(2 * n * f >= (a * pt * d) * f);
    }
    if 2 * n == a * pt * d && mant > 0 {
        assert(2 * n * f == a * w * x);
        assert(2 * n * f == 2 * (n * f)) by (nonlinear_arith);
        assert(!sticky);
        assert(2 * m == a * w) by (nonlinear_arith)
            requires
                2 * m * x == a * w * x,
                x > 0,
        ;
        if mant == q {
            assert(2 * (q * w) + 2 * r == (2 * q - 1) * w);
            assert((2 * q - 1) * w == 2 * (q * w) - w) by (nonlinear_arith);
            assert(false);
        }
        assert((2 * (q + 1) - 1) * w == 2 * (q * w) + w) by (nonlinear_arith);
        assert(r == half);
        assert(mant % 2 == 0);
    }
    // The midpoint above.
    let hi: nat = if sticky {
        m + 1
    } else {
        m
    };
    assert(2 * hi <= b * w && (2 * hi == b * w && !sticky ==> mant % 2 == 0)) by {
        if mant == q {
            assert(b * w == 2 * (q * w) + w) by (nonlinear_arith)
                requires
                    b == 2 * q + 1,
            ;
        } else {
            assert(b * w == 2 * (q * w) + 3 * w) by (nonlinear_arith)
                requires
                    b == 2 * (q + 1) + 1,
            ;
        }
    }
    assert(2 * hi * x <= b * w * x) by (nonlinear_arith)
        requires
            2 * hi <= b * w,
            x > 0,
    ;
    assert(n * f <= hi * x && (sticky ==> n * f < hi * x));
    assert(2 * n <= b * pt * d) by (nonlinear_arith)
        requires
            n * f <= hi * x,
            2 * hi * x <= b * w * x,
            (b * pt * d) * f == b * w * x,
            f > 0,
    {
        assert(2 * n * f <= (b * pt * d) * f);
    }
    if 2 * n == b * pt * d {
        assert(2 * n * f == b * w * x);
        assert(2 * n * f == 2 * (n * f)) by (nonlinear_arith);
        assert(2 * hi * x == 2 * (hi * x)) by (nonlinear_arith);
        assert(!sticky);
        assert(2 * hi == b * w) by (nonlinear_arith)
            requires
                2 * hi * x == b * w * x,
                x > 0,
        ;
    }
    if t > 0 && mant == h {
        assert((h * pt * d) * f == h * w * x);
        assert(q == h);
        assert(n >= h * pt * d) by (nonlinear_arith)
            requires
                n * f >= m * x,
                m >= h * w,
                (h * pt * d) * f == h * w * x,
                f > 0,
                x > 0,
        {
            assert(m * x >= h * w * x);
        }
    }
    lemma_rounded(h, top, t, mant, n, d);
}

/// Rounds a number of which the leading digits are known.
///
/// `n / d` lies in `[m, m + 1) * 2^e`, and is `m * 2^e` itself unless `sticky`
/// says that lower digits follow.
pub(crate) fn round_to(
    h: u128,
    p: u32,
    top: u128,
    m: u128,
    e: i32,
    sticky: bool,
    Ghost(n): Ghost<nat>,
    Ghost(d): Ghost<nat>,
) -> (k: u128)
    requires
        2 <= p <= 60,
        h == pow2((p - 1) as nat),
        0 < top < pow2(126),
        top % 2 == 0,
        0 < m < pow2(126),
        -4000 <= e <= 4000,
        d > 0,
        !sticky ==> m * up(e as int) * d == n * up(-e),
        sticky ==> m * up(e as int) * d < n * up(-e) < (m + 1) * up(e as int) * d,
        sticky ==> m >= 4 * h,
    ensures
        k <= top,
        is_nearest(h as nat, top as nat, k as nat, n, d),
{
    let l: u32 = bit_length(m);
    let lead: i32 = l as i32 + e - p as i32;
    let t: i32 = if lead > 0 { lead } else { 0 };
    let s: i32 = t - e;
    proof {
        vstd::arithmetic::power2::lemma_pow2_unfold((p - 1) as nat);
        vstd::arithmetic::power2::lemma_pow2_pos((p - 2) as nat);
        vstd::arithmetic::power2::lemma_pow2_unfold(p as nat);
    }
    if s <= 0 {
        let w: u128 = power_of_two((-s) as u32);
        proof {
            lemma_exact(
                h as nat,
                p as nat,
                top as nat,
                m as nat,
                l as nat,
                e as int,
                sticky,
                t as nat,
                w as nat,
                n,
                d,
            );
            lemma_small(h, p);
        }
        let mant: u128 = m * w;
        place_in(h, top, t as u128, mant)
    } else if s >= 127 {
        proof {
            lemma_vanishes(h as nat, top as nat, m as nat, e as int, sticky, n, d);
        }
        0
    } else {
        let w: u128 = power_of_two(s as u32);
        let half: u128 = power_of_two((s - 1) as u32);
        proof {
            vstd::arithmetic::power2::lemma_pow2_pos(s as nat);
            lemma_shift(126);
        }
        let q: u128 = m / w;
        let r: u128 = m % w;
        let round_up: bool = r > half || (r == half && (sticky || q % 2 == 1));
        proof {
            assert(q <= m && m == q * w + r) by (nonlinear_arith)
                requires
                    q == m / w,
                    r == m % w,
                    w > 0,
            ;
        }
        let mant: u128 = if round_up { q + 1 } else { q };
        proof {
            lemma_rounds(
                h as nat,
                p as nat,
                top as nat,
                m as nat,
                l as nat,
                e as int,
                sticky,
                t as nat,
                s as nat,
                q as nat,
                r as nat,
                mant as nat,
                n,
                d,
            );
            lemma_small(h, p);
        }
        place_in(h, top, t as u128, mant)
    }
}

proof fn lemma_small(h: u128, p: u32)
    requires
        2 <= p <= 60,
        h == pow2((p - 1) as nat),
    ensures
        h <= pow2(60),
        pow2(60) == 0x1000_0000_0000_0000,
{
    vstd::arithmetic::power2::lemma2_to64_rest();
    vstd::arithmetic::power2::lemma_pow2_strictly_increases((p - 1) as nat, 60);
}

/// The pattern with last-place exponent `t` and significand `m`, or `top`.
fn place_in(h: u128, top: u128, t: u128, m: u128) -> (k: u128)
    requires
        h <= pow2(60),
        t <= 5000,
        m <= 2 * h,
    ensures
        k == if t * h + m <= top { t * h + m } else { top as int },
{
    proof {
        assert(pow2(60) == 0x1000_0000_0000_0000) by {
            vstd::arithmetic::power2::lemma2_to64_rest();
        }
        assert(t * h <= 5000 * 0x1000_0000_0000_0000) by (nonlinear_arith)
            requires
                t <= 5000,
                h <= 0x1000_0000_0000_0000,
        ;
    }
    let k: u128 = t * h + m;
    if k <= top {
        k
    } else {
        top
    }
}

/// A significand that fits is representable at every place.
pub proof fn lemma_scaled(h: nat, m: nat, t: nat) -> (k: nat)
    requires
        h > 0,
        0 < m < 2 * h,
    ensures
        mag(h, k) == m * pow2(t),
        k < (t + 2) * h,
    decreases t,
{
    if m >= h || t == 0 {
        lemma_mag_parts(h, t, m);
        assert(t * h + m < (t + 2) * h) by (nonlinear_arith)
            requires
                m < 2 * h,
        ;
        t * h + m
    } else {
        let k = lemma_scaled(h, 2 * m, (t - 1) as nat);
        vstd::arithmetic::power2::lemma_pow2_unfold(t);
        assert((2 * m) * pow2((t - 1) as nat) == m * pow2(t)) by (nonlinear_arith)
            requires
                pow2(t) == 2 * pow2((t - 1) as nat),
        ;
        assert((t - 1 + 2) * h <= (t + 2) * h) by (nonlinear_arith);
        k
    }
}

/// Rounding does not pass a pattern whose magnitude it has not passed.
pub proof fn lemma_nearest_bound(h: nat, top: nat, n: nat, d: nat, k: nat)
    requires
        h > 0,
        d > 0,
        k <= top,
    ensures
        n >= mag(h, k) * d ==> nearest(h, top, n, d) >= k,
        n <= mag(h, k) * d ==> nearest(h, top, n, d) <= k,
{
    lemma_representable(h, top, k, d);
    if n >= mag(h, k) * d {
        lemma_nearest_monotone(h, top, mag(h, k) * d, n, d);
    }
    if n <= mag(h, k) * d {
        lemma_nearest_monotone(h, top, n, mag(h, k) * d, d);
    }
}

} // verus!
