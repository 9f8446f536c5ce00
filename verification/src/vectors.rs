//! Arithmetic on embedding vectors.

use crate::binary32::Binary32;
use vstd::prelude::*;

verus! {

/// Bits of `0.5`.
pub const HALF: u32 = 0x3f00_0000;

/// Bits of `1.0`.
pub const ONE: u32 = 0x3f80_0000;

/// Bits of the infinity below every number.
pub const NEGATIVE_INFINITY: u32 = 0xff80_0000;

pub open spec fn zero() -> Binary32 {
    Binary32 { bits: 0 }
}

pub open spec fn one() -> Binary32 {
    Binary32 { bits: ONE }
}

pub open spec fn lowest() -> Binary32 {
    Binary32 { bits: NEGATIVE_INFINITY }
}

/// The rows of a table.
pub open spec fn rows(v: Seq<Vec<Binary32>>) -> Seq<Seq<Binary32>> {
    Seq::new(v.len(), |i: int| v[i]@)
}

/// The vector behind an optional one.
pub open spec fn optional(v: Option<Vec<Binary32>>) -> Option<Seq<Binary32>> {
    match v {
        Some(x) => Some(x@),
        None => None,
    }
}

/// The length on which two vectors overlap.
pub open spec fn overlap(a: Seq<Binary32>, b: Seq<Binary32>) -> nat {
    if a.len() <= b.len() {
        a.len()
    } else {
        b.len()
    }
}

/// Sum of the products of the first `n` elements, added up from the left.
pub open spec fn dot(a: Seq<Binary32>, b: Seq<Binary32>, n: nat) -> Binary32
    decreases n,
{
    if n == 0 {
        zero()
    } else {
        dot(a, b, (n - 1) as nat).sum(a[n - 1].product(b[n - 1]))
    }
}

/// `wa * x + wb * y`.
pub open spec fn mixed(wa: Binary32, x: Binary32, wb: Binary32, y: Binary32) -> Binary32 {
    wa.product(x).sum(wb.product(y))
}

/// `wa * a + wb * b`, element by element, on the overlap.
pub open spec fn mix(wa: Binary32, a: Seq<Binary32>, wb: Binary32, b: Seq<Binary32>) -> Seq<
    Binary32,
> {
    Seq::new(overlap(a, b), |i: int| mixed(wa, a[i], wb, b[i]))
}

/// Sum of the `i`-th elements of the first `n` vectors, added up from the
/// first; a vector too short to have one adds nothing.
pub open spec fn column(vectors: Seq<Seq<Binary32>>, i: int, n: nat) -> Binary32
    decreases n,
{
    if n == 0 {
        zero()
    } else {
        let s = column(vectors, i, (n - 1) as nat);
        if i < vectors[n - 1].len() {
            s.sum(vectors[n - 1][i])
        } else {
            s
        }
    }
}

/// `1 / n`.
pub open spec fn reciprocal(n: nat) -> Binary32 {
    one().quotient(Binary32::whole(n))
}

/// Element-wise mean of some vectors, as long as the first of them. The mean
/// of a single vector is that vector, verbatim.
pub open spec fn mean(vectors: Seq<Seq<Binary32>>) -> Seq<Binary32>
    recommends
        vectors.len() > 0,
{
    if vectors.len() == 1 {
        vectors[0]
    } else {
        Seq::new(
            vectors[0].len(),
            |i: int| column(vectors, i, vectors.len()).product(reciprocal(vectors.len())),
        )
    }
}

/// The largest of the first `n` numbers and `start`, what is not a number
/// left out.
pub open spec fn greatest(start: Binary32, s: Seq<Binary32>, n: nat) -> Binary32
    decreases n,
{
    if n == 0 {
        start
    } else {
        greatest(start, s, (n - 1) as nat).larger(s[n - 1])
    }
}

/// A copy of a vector.
pub fn copy(v: &[Binary32]) -> (r: Vec<Binary32>)
    ensures
        r@ == v@,
{
    let mut r: Vec<Binary32> = Vec::with_capacity(v.len());
    let mut i: usize = 0;
    while i < v.len()
        invariant
            i <= v.len(),
            r@ == v@.take(i as int),
        decreases v.len() - i,
    {
        r.push(v[i]);
        i = i + 1;
        assert(v@.take(i as int) =~= v@.take(i - 1).push(v@[i - 1]));
    }
    assert(v@.take(i as int) =~= v@);
    r
}

/// A copy of a table.
pub fn copy_rows(v: &[Vec<Binary32>]) -> (r: Vec<Vec<Binary32>>)
    ensures
        rows(r@) == rows(v@),
{
    let mut r: Vec<Vec<Binary32>> = Vec::with_capacity(v.len());
    let mut i: usize = 0;
    while i < v.len()
        invariant
            i <= v.len(),
            r.len() == i,
            forall|k: int| 0 <= k < i ==> (#[trigger] r@[k])@ == v@[k]@,
        decreases v.len() - i,
    {
        r.push(copy(v[i].as_slice()));
        i = i + 1;
    }
    assert(rows(r@) =~= rows(v@));
    r
}

/// Sum of the products of the elements on which two vectors overlap.
pub fn dot_product(a: &[Binary32], b: &[Binary32]) -> (r: Binary32)
    ensures
        r == dot(a@, b@, overlap(a@, b@)),
{
    let n: usize = if a.len() <= b.len() {
        a.len()
    } else {
        b.len()
    };
    let mut s: Binary32 = Binary32 { bits: 0 };
    let mut i: usize = 0;
    while i < n
        invariant
            i <= n,
            n <= a.len(),
            n <= b.len(),
            s == dot(a@, b@, i as nat),
        decreases n - i,
    {
        s = s.plus(a[i].times(b[i]));
        i = i + 1;
    }
    s
}

/// `wa * a + wb * b` on the overlap of two vectors.
pub fn blend(wa: Binary32, a: &[Binary32], wb: Binary32, b: &[Binary32]) -> (r: Vec<Binary32>)
    ensures
        r@ == mix(wa, a@, wb, b@),
{
    let n: usize = if a.len() <= b.len() {
        a.len()
    } else {
        b.len()
    };
    let mut r: Vec<Binary32> = Vec::with_capacity(n);
    let mut i: usize = 0;
    while i < n
        invariant
            i <= n,
            n == overlap(a@, b@),
            r.len() == i,
            forall|k: int| 0 <= k < i ==> r@[k] == mixed(wa, a@[k], wb, b@[k]),
        decreases n - i,
    {
        r.push(wa.times(a[i]).plus(wb.times(b[i])));
        i = i + 1;
    }
    assert(r@ =~= mix(wa, a@, wb, b@));
    r
}

/// Element-wise mean of `vectors`, or `None` for an empty slice.
pub fn elementwise_mean(vectors: &[Vec<Binary32>]) -> (r: Option<Vec<Binary32>>)
    ensures
        optional(r) == (if vectors@.len() == 0 {
            None
        } else {
            Some(mean(rows(vectors@)))
        }),
{
    if vectors.len() == 0 {
        return None;
    }
    if vectors.len() == 1 {
        return Some(copy(vectors[0].as_slice()));
    }
    let dim: usize = vectors[0].len();
    let inv: Binary32 = Binary32 { bits: ONE }.over(Binary32::from_count(vectors.len() as u64));
    let mut r: Vec<Binary32> = Vec::with_capacity(dim);
    let mut i: usize = 0;
    while i < dim
        invariant
            i <= dim,
            vectors.len() > 0,
            dim == vectors@[0]@.len(),
            inv == reciprocal(vectors@.len()),
            r.len() == i,
            forall|k: int|
                0 <= k < i ==> r@[k] == column(rows(vectors@), k, vectors@.len()).product(inv),
        decreases dim - i,
    {
        let mut s: Binary32 = Binary32 { bits: 0 };
        let mut j: usize = 0;
        while j < vectors.len()
            invariant
                j <= vectors.len(),
                s == column(rows(vectors@), i as int, j as nat),
            decreases vectors.len() - j,
        {
            assert(rows(vectors@)[j as int] == vectors@[j as int]@);
            if i < vectors[j].len() {
                s = s.plus(vectors[j][i]);
            }
            j = j + 1;
        }
        r.push(s.times(inv));
        i = i + 1;
    }
    assert(r@ =~= mean(rows(vectors@)));
    Some(r)
}

/// [`greatest`] is one of the numbers, and none of them is greater.
pub proof fn law_greatest(start: Binary32, s: Seq<Binary32>, n: nat)
    requires
        !start.nan(),
        n <= s.len(),
    ensures
        !greatest(start, s, n).nan(),
        start.le(greatest(start, s, n)),
        forall|i: int| 0 <= i < n && !s[i].nan() ==> (#[trigger] s[i]).le(greatest(start, s, n)),
        greatest(start, s, n) == start || exists|i: int|
            0 <= i < n && #[trigger] s[i] == greatest(start, s, n),
    decreases n,
{
    if n == 0 {
        crate::binary32::lemma_total(start, start, start);
    } else {
        law_greatest(start, s, (n - 1) as nat);
        let g = greatest(start, s, (n - 1) as nat);
        let x = s[n - 1];
        let h = greatest(start, s, n);
        reveal(Binary32::lt);
        if !x.nan() {
            crate::binary32::lemma_total(g, x, h);
            crate::binary32::lemma_total(start, g, h);
            crate::binary32::lemma_total(x, g, h);
            assert forall|i: int| 0 <= i < n && !s[i].nan() implies (#[trigger] s[i]).le(h) by {
                if i < n - 1 {
                    crate::binary32::lemma_total(s[i], g, h);
                }
            }
        } else {
            assert(h == g);
        }
        if h == g && g != start {
            let i = choose|i: int| 0 <= i < n - 1 && #[trigger] s[i] == g;
            assert(s[i] == h);
        }
    }
}

/// Averaging a single vector as several are averaged would give that vector
/// too, bit by bit, where it holds numbers and no zero below zero.
pub proof fn law_average_of_one(a: Seq<Binary32>, i: int)
    requires
        0 <= i < a.len(),
        !a[i].nan(),
        a[i].bits != 0x8000_0000,
    ensures
        column(seq![a], i, 1).product(reciprocal(1)) == a[i],
{
    let v = seq![a];
    crate::binary32::lemma_one_over_one();
    reveal_with_fuel(column, 2);
    crate::binary32::lemma_zero_plus(a[i]);
    crate::binary32::lemma_times_one(a[i]);
    assert(v[0] == a);
}

} // verus!
