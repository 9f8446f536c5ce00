//! Decimal texts of numbers: what writing with a fixed number of places and
//! reading back come to.

use crate::binary;
use crate::binary32;
use crate::binary32::Binary32;
use crate::rounding;
use crate::rounding::mag;
use crate::settings::between;
use crate::text;
use vstd::arithmetic::power2::pow2;
use vstd::prelude::*;

verus! {

/// The number one, in units of the smallest positive number.
pub open spec fn one_in_units() -> nat {
    pow2(149)
}

pub open spec fn ten_to(places: nat) -> nat
    decreases places,
{
    if places == 0 {
        1
    } else {
        10 * ten_to((places - 1) as nat)
    }
}

/// The last `places` digits of `n`.
pub open spec fn digits_text(n: nat, places: nat) -> Seq<char>
    decreases places,
{
    if places == 0 {
        Seq::empty()
    } else {
        digits_text(n / 10, (places - 1) as nat).push(text::digit(n % 10))
    }
}

/// `n` of the last place, with so many places.
pub open spec fn fixed_text(n: nat, places: nat) -> Seq<char> {
    if places == 0 {
        text::decimal_text(n)
    } else {
        text::decimal_text(n / ten_to(places)) + seq!['.'] + digits_text(n, places)
    }
}

/// `n` of the last place is as near to `x` as any other count; either of two
/// where `x` is in the middle.
pub open spec fn is_fixed(x: Binary32, places: nat, n: nat) -> bool {
    let exact = x.units() * ten_to(places);
    let rounded = n * one_in_units();
    2 * (exact - rounded) <= one_in_units() && 2 * (rounded - exact) <= one_in_units()
}

/// The number nearest to `n` of the last place.
pub open spec fn fixed_number(n: nat, places: nat) -> Binary32 {
    Binary32::of(
        binary::rounded(binary32::format(), false, n * one_in_units(), ten_to(places)),
    )
}

/// `number` writes numbers that are not negative in decimal, rounded to the
/// nearest at the places that are asked for.
pub open spec fn writes_decimals<N: Fn(Binary32, u32) -> String>(number: &N) -> bool {
    forall|x: Binary32, places: u32, s: String| #[trigger]
        number.ensures((x, places), s) && x.finite() && !x.parts().negative ==> exists|n: nat|
            is_fixed(x, places as nat, n) && s@ == #[trigger] fixed_text(n, places as nat)
}

/// `parse` reads decimals as the numbers nearest to them.
pub open spec fn reads_decimals<F: Fn(&str) -> Option<Binary32>>(parse: F) -> bool {
    forall|w: &str, r: Option<Binary32>, n: nat, places: nat| #[trigger]
        parse.ensures((w,), r) && w@ == #[trigger] fixed_text(n, places) ==> r == Some(
            fixed_number(n, places),
        )
}

/// A decimal is one word.
pub proof fn lemma_fixed_word(n: nat, places: nat)
    ensures
        text::is_word(fixed_text(n, places)),
{
    let whole = if places == 0 {
        n
    } else {
        n / ten_to(places)
    };
    text::lemma_decimal(whole);
    lemma_digits(n, places);
    let head = text::decimal_text(whole);
    let tail = digits_text(n, places);
    let s = fixed_text(n, places);
    assert forall|i: int| 0 <= i < s.len() implies !text::separates(#[trigger] s[i]) by {
        if i < head.len() {
            assert(s[i] == head[i]);
            assert(text::is_digit(head[i]));
        } else if i > head.len() {
            assert(s[i] == tail[i - head.len() - 1]);
            assert(text::is_digit(tail[i - head.len() - 1]));
        }
    }
}

proof fn lemma_digits(n: nat, places: nat)
    ensures
        digits_text(n, places).len() == places,
        forall|i: int| 0 <= i < places ==> text::is_digit(#[trigger] digits_text(n, places)[i]),
    decreases places,
{
    if places > 0 {
        let head = digits_text(n / 10, (places - 1) as nat);
        lemma_digits(n / 10, (places - 1) as nat);
        assert forall|i: int| 0 <= i < places implies text::is_digit(
            #[trigger] digits_text(n, places)[i],
        ) by {
            if i < places - 1 {
                assert(digits_text(n, places)[i] == head[i]);
            }
        }
    }
}

proof fn lemma_thousand()
    ensures
        ten_to(3) == 1000,
        ten_to(0) == 1,
{
    assert(ten_to(1) == 10 * ten_to(0));
    assert(ten_to(2) == 10 * ten_to(1));
    assert(ten_to(3) == 10 * ten_to(2));
}

/// Thousandths below one are read to within half a unit in the last place.
#[verifier::rlimit(40)]
proof fn lemma_thousandths(n: nat)
    requires
        n < 1000,
    ensures
        ({
            let y = fixed_number(n, 3);
            let exact = n * one_in_units();
            &&& y.finite() && !y.parts().negative
            &&& y.parts().pattern == rounding::nearest(0x80_0000, 0x7f80_0000, exact, 1000)
            &&& 1000 * y.units() - exact <= 1000 * pow2(124)
            &&& exact - 1000 * y.units() <= 1000 * pow2(124)
            &&& one_in_units() == 0x200_0000 * pow2(124)
            &&& pow2(124) > 0
        }),
{
    lemma_thousand();
    binary32::lemma_format();
    binary32::lemma_one();
    let f = binary32::format();
    let h = 0x80_0000nat;
    let top = 0x7f80_0000nat;
    let unit = one_in_units();
    let step = pow2(125);
    vstd::arithmetic::power2::lemma2_to64();
    vstd::arithmetic::power2::lemma_pow2_pos(124);
    vstd::arithmetic::power2::lemma_pow2_adds(25, 124);
    vstd::arithmetic::power2::lemma_pow2_adds(24, 125);
    vstd::arithmetic::power2::lemma_pow2_adds(1, 124);
    let exact = n * unit;
    let k = rounding::nearest(h, top, exact, 1000);
    binary::lemma_rounded(f, false, exact, 1000);
    rounding::lemma_nearest_exists(h, top, exact, 1000);
    // The largest number below one.
    rounding::lemma_mag_step(h, 0x3f7f_ffff);
    assert(mag(h, 0x3f80_0000) == unit);
    assert(rounding::place(h, 0x3f7f_ffff) == 125);
    assert(exact <= mag(h, 0x3f7f_ffff) * 1000) by (nonlinear_arith)
        requires
            exact == n * unit,
            n <= 999,
            mag(h, 0x3f7f_ffff) == unit - step,
            unit == 0x100_0000 * step,
            step > 0,
    ;
    rounding::lemma_nearest_bound(h, top, exact, 1000, 0x3f7f_ffff);
    lemma_step_bound(k);
    rounding::lemma_mag_step(h, k);
    if k > 0 {
        lemma_step_bound((k - 1) as nat);
        rounding::lemma_mag_step(h, (k - 1) as nat);
    } else {
        binary::lemma_order(f, 0, 0);
    }
}

/// Below one, neighbours are no further apart than there.
proof fn lemma_step_bound(k: nat)
    requires
        k <= 0x3f7f_ffff,
    ensures
        pow2(rounding::place(0x80_0000, k)) <= pow2(125),
{
    let t = rounding::place(0x80_0000, k);
    assert(t <= 125);
    if t < 125 {
        vstd::arithmetic::power2::lemma_pow2_strictly_increases(t, 125);
    }
}

/// Thousandths whose nearest number is known.
#[verifier::rlimit(40)]
proof fn lemma_known(n: nat, t: nat, m: nat, s: nat)
    requires
        s + t == 149,
        t <= 125,
        0x80_0000 < m < 0xff_ffff,
        1000 * (2 * m - 1) < 2 * n * pow2(s) < 1000 * (2 * m + 1),
    ensures
        fixed_number(n, 3).bits == t * 0x80_0000 + m,
{
    lemma_thousand();
    let h = 0x80_0000nat;
    let top = 0x7f80_0000nat;
    let p = pow2(t);
    let e = pow2(s);
    let unit = one_in_units();
    vstd::arithmetic::power2::lemma_pow2_pos(t);
    vstd::arithmetic::power2::lemma_pow2_adds(s, t);
    rounding::lemma_mag_parts(h, t, m);
    rounding::lemma_mag_parts(h, t, (m - 1) as nat);
    rounding::lemma_mag_parts(h, t, m + 1);
    let k = t * h + m;
    let exact = n * unit;
    assert(2 * exact >= 1000 * ((m - 1) * p + m * p) && 2 * exact != 1000 * ((m - 1) * p + m * p)
        && 2 * exact <= 1000 * (m * p + (m + 1) * p) && 2 * exact != 1000 * (m * p + (m + 1)
        * p)) by (nonlinear_arith)
        requires
            exact == n * unit,
            unit == e * p,
            p > 0,
            1000 * (2 * m - 1) < 2 * n * e,
            2 * n * e < 1000 * (2 * m + 1),
    ;
    assert(rounding::is_nearest(h, top, k, exact, 1000));
    rounding::lemma_is_nearest(h, top, k, exact, 1000);
}

/// What is left of a number below one that is written with three places and
/// read back: it stays in its range, moves by no more than half a thousandth
/// and half a unit in the last place, and not at all where three places hold
/// it.
#[verifier::rlimit(40)]
pub proof fn lemma_three_places(x: Binary32, n: nat, low: nat, high: nat)
    requires
        0 < low <= high < 1000,
        between(fixed_number(low, 3).bits, x, fixed_number(high, 3).bits),
        is_fixed(x, 3, n),
    ensures
        between(fixed_number(low, 3).bits, fixed_number(n, 3), fixed_number(high, 3).bits),
        2000 * (fixed_number(n, 3).units() - x.units()) <= one_in_units() + 2000 * pow2(124),
        2000 * (x.units() - fixed_number(n, 3).units()) <= one_in_units() + 2000 * pow2(124),
        forall|j: nat| j < 1000 && x == #[trigger] fixed_number(j, 3) ==> fixed_number(n, 3) == x,
{
    reveal(Binary32::le);
    lemma_thousand();
    binary32::lemma_format();
    let f = binary32::format();
    let h = 0x80_0000nat;
    let top = 0x7f80_0000nat;
    let unit = one_in_units();
    let half = pow2(124);
    lemma_thousandths(low);
    lemma_thousandths(high);
    let a = fixed_number(low, 3);
    let b = fixed_number(high, 3);
    assert(low <= n) by (nonlinear_arith)
        requires
            1000 * x.units() >= low * unit - 1000 * half,
            2 * (1000 * x.units() - n * unit) <= unit,
            unit == 0x200_0000 * half,
            half > 0,
    ;
    assert(n <= high) by (nonlinear_arith)
        requires
            1000 * x.units() <= high * unit + 1000 * half,
            2 * (n * unit - 1000 * x.units()) <= unit,
            unit == 0x200_0000 * half,
            half > 0,
    ;
    lemma_thousandths(n);
    let y = fixed_number(n, 3);
    assert(low * unit <= n * unit <= high * unit) by (nonlinear_arith)
        requires
            low <= n <= high,
            unit >= 0,
    ;
    rounding::lemma_nearest_monotone(h, top, low * unit, n * unit, 1000);
    rounding::lemma_nearest_monotone(h, top, n * unit, high * unit, 1000);
    binary::lemma_order(f, a.parts().pattern, y.parts().pattern);
    binary::lemma_order(f, y.parts().pattern, b.parts().pattern);
    assert forall|j: nat| j < 1000 && x == #[trigger] fixed_number(j, 3) implies y == x by {
        lemma_thousandths(j);
        assert(n == j) by (nonlinear_arith)
            requires
                1000 * x.units() - j * unit <= 1000 * half,
                j * unit - 1000 * x.units() <= 1000 * half,
                2 * (1000 * x.units() - n * unit) <= unit,
                2 * (n * unit - 1000 * x.units()) <= unit,
                unit == 0x200_0000 * half,
                half > 0,
        ;
    }
}

/// What lies between two such numbers is finite and not negative.
pub proof fn lemma_in_range(x: Binary32, places: nat, low: nat, high: nat)
    requires
        places == 0 || places == 3,
        0 < low <= high,
        high < (if places == 0 {
            0x100_0000nat
        } else {
            1000
        }),
        between(fixed_number(low, places).bits, x, fixed_number(high, places).bits),
    ensures
        x.finite(),
        !x.parts().negative,
{
    reveal(Binary32::le);
    binary32::lemma_format();
    let f = binary32::format();
    if places == 0 {
        lemma_no_places(low);
        lemma_no_places(high);
    } else {
        lemma_thousandths(low);
        lemma_thousandths(high);
    }
    let a = fixed_number(low, places);
    let b = fixed_number(high, places);
    assert(a.units() > 0) by {
        vstd::arithmetic::power2::lemma_pow2_pos(149);
        assert(low * one_in_units() >= one_in_units()) by (nonlinear_arith)
            requires
                low >= 1,
                one_in_units() >= 0,
        ;
    }
    binary::lemma_order(f, x.parts().pattern, b.parts().pattern);
    binary::lemma_order(f, b.parts().pattern, x.parts().pattern);
}

/// Whole numbers of up to 24 binary digits are read exactly.
pub proof fn lemma_no_places(n: nat)
    requires
        n < 0x100_0000,
    ensures
        fixed_number(n, 0).units() == n * one_in_units(),
        fixed_number(n, 0).finite(),
        !fixed_number(n, 0).parts().negative,
{
    lemma_thousand();
    binary32::lemma_format();
    let f = binary32::format();
    let h = 0x80_0000nat;
    let unit = one_in_units();
    binary::lemma_rounded(f, false, n * unit, 1);
    if n == 0 {
        assert(n * unit == 0) by (nonlinear_arith)
            requires
                n == 0,
        ;
        binary::lemma_zero(f, 1);
        binary::lemma_order(f, 0, 0);
    } else {
        let k = rounding::lemma_scaled(h, n, 149);
        assert(k < f.inf());
        rounding::lemma_representable(h, f.inf(), k, 1);
    }
}

/// What is left of a number that is written as a whole one and read back: it
/// stays in its range, moves by no more than a half, and not at all where it is
/// whole.
#[verifier::rlimit(40)]
pub proof fn lemma_whole_back(x: Binary32, n: nat, low: nat, high: nat)
    requires
        0 < low <= high < 0x100_0000,
        between(fixed_number(low, 0).bits, x, fixed_number(high, 0).bits),
        is_fixed(x, 0, n),
    ensures
        between(fixed_number(low, 0).bits, fixed_number(n, 0), fixed_number(high, 0).bits),
        2 * (fixed_number(n, 0).units() - x.units()) <= one_in_units(),
        2 * (x.units() - fixed_number(n, 0).units()) <= one_in_units(),
        forall|j: nat|
            j < 0x100_0000 && x == #[trigger] fixed_number(j, 0) ==> fixed_number(n, 0) == x,
{
    reveal(Binary32::le);
    lemma_thousand();
    binary32::lemma_format();
    let unit = one_in_units();
    vstd::arithmetic::power2::lemma_pow2_pos(149);
    lemma_no_places(low);
    lemma_no_places(high);
    assert(low <= n <= high) by (nonlinear_arith)
        requires
            low * unit <= x.units() <= high * unit,
            2 * (x.units() - n * unit) <= unit,
            2 * (n * unit - x.units()) <= unit,
            unit > 0,
    ;
    lemma_no_places(n);
    assert(low * unit <= n * unit <= high * unit) by (nonlinear_arith)
        requires
            low <= n <= high,
            unit >= 0,
    ;
    assert forall|j: nat| j < 0x100_0000 && x == #[trigger] fixed_number(j, 0) implies fixed_number(
        n,
        0,
    ) == x by {
        lemma_no_places(j);
        assert(n == j) by (nonlinear_arith)
            requires
                x.units() == j * unit,
                2 * (x.units() - n * unit) <= unit,
                2 * (n * unit - x.units()) <= unit,
                unit > 0,
        ;
    }
}

/// The ends of the ranges of the persisted controls, as decimals.
pub proof fn lemma_range_ends()
    ensures
        fixed_number(150, 3).bits == 0x3e19_999a,
        fixed_number(850, 3).bits == 0x3f59_999a,
        fixed_number(50, 3).bits == 0x3d4c_cccd,
        fixed_number(950, 3).bits == 0x3f73_3333,
        fixed_number(100, 0).bits == 0x42c8_0000,
        fixed_number(1200, 0).bits == 0x4496_0000,
        fixed_number(30, 0).bits == 0x41f0_0000,
        fixed_number(400, 0).bits == 0x43c8_0000,
{
    vstd::arithmetic::power2::lemma2_to64();
    lemma_known(150, 123, 10066330, 26);
    lemma_known(850, 125, 14260634, 24);
    lemma_known(50, 121, 13421773, 28);
    lemma_known(950, 125, 15938355, 24);
    lemma_known_whole(100, 132, 13107200, 17);
    lemma_known_whole(1200, 136, 9830400, 13);
    lemma_known_whole(30, 130, 15728640, 19);
    lemma_known_whole(400, 134, 13107200, 15);
}

proof fn lemma_known_whole(n: nat, t: nat, m: nat, s: nat)
    requires
        s + t == 149,
        0x80_0000 <= m < 0x100_0000,
        m == n * pow2(s),
    ensures
        fixed_number(n, 0).bits == t * 0x80_0000 + m,
{
    lemma_thousand();
    let h = 0x80_0000nat;
    let top = 0x7f80_0000nat;
    vstd::arithmetic::power2::lemma_pow2_adds(s, t);
    rounding::lemma_mag_parts(h, t, m);
    let k = t * h + m;
    assert(m * pow2(t) == n * one_in_units()) by (nonlinear_arith)
        requires
            m == n * pow2(s),
            one_in_units() == pow2(s) * pow2(t),
    ;
    assert(k <= top);
    rounding::lemma_representable(h, top, k, 1);
}

} // verus!
