//! Whether a recording is good enough to become a profile.
//!
//! A disconnected or quiet input, long silence, a DC fault or actual clipping
//! would make a misleading profile, and so would anchors that do not resemble
//! each other.

use crate::audio;
use crate::audio::rms;
use crate::binary;
use crate::binary32::Binary32;
use crate::binary64::Binary64;
use crate::gating::cos_similarity;
use crate::gating::cosine;
use crate::gating::law_cosine_is_symmetric;
use crate::vectors;
use vstd::arithmetic::power2::pow2;
use vstd::multiset::Multiset;
use vstd::prelude::*;
use vstd::relations::sorted_by;
use vstd::relations::total_ordering;

verus! {

/// Bits of `0.995`.
pub const CLIPPED_AT: u32 = 0x3f7e_b852;

/// Bits of `1.0e-9`.
pub const LEAST_LEVEL: u32 = 0x3089_705f;

/// Bits of `-42.0`.
pub const LEAST_DBFS: u32 = 0xc228_0000;

/// Bits of `0.025`.
pub const LEAST_PEAK: u32 = 0x3ccc_cccd;

/// Bits of `0.003`.
pub const MOST_CLIPPED: u32 = 0x3b44_9ba6;

/// Bits of `0.05`.
pub const MOST_DC: u32 = 0x3d4c_cccd;

/// Bits of `0.006`.
pub const ACTIVE_LEVEL: u32 = 0x3bc4_9ba6;

/// Bits of `0.45`.
pub const LEAST_ACTIVE: u32 = 0x3ee6_6666;

/// Bits of `100.0`.
pub const HUNDRED: u32 = 0x42c8_0000;

/// Why a recording is refused.
#[derive(Debug, Clone, Copy, PartialEq, Eq, Structural)]
pub enum CaptureFault {
    /// There is nothing, or something that is not a number.
    Broken,
    /// The voice is too quiet, at this level in dBFS.
    TooQuiet { rms_dbfs: Binary32 },
    /// This percentage of the samples is clipped.
    Clipped { percent: Binary32 },
    /// The signal is off centre.
    DcOffset,
    /// Only this percentage of the recording is speech.
    TooLittleSpeech { percent: Binary32 },
}

/// Sum of the first `n` samples, in double precision.
pub open spec fn total(s: Seq<Binary32>, n: nat) -> Binary64
    decreases n,
{
    if n == 0 {
        Binary64 { bits: 0 }
    } else {
        total(s, (n - 1) as nat).sum(Binary64::widened(s[n - 1]))
    }
}

/// Sum of the squares of the first `n` samples, in double precision.
pub open spec fn energy(s: Seq<Binary32>, n: nat) -> Binary64
    decreases n,
{
    if n == 0 {
        Binary64 { bits: 0 }
    } else {
        let x = Binary64::widened(s[n - 1]);
        energy(s, (n - 1) as nat).sum(x.product(x))
    }
}

/// Largest of the first `n` samples, signs ignored.
pub open spec fn peak(s: Seq<Binary32>, n: nat) -> Binary32
    decreases n,
{
    if n == 0 {
        vectors::zero()
    } else {
        peak(s, (n - 1) as nat).larger(s[n - 1].absolute())
    }
}

/// How many of the first `n` samples are clipped.
pub open spec fn clipped(s: Seq<Binary32>, n: nat) -> nat
    decreases n,
{
    if n == 0 {
        0
    } else if (Binary32 { bits: CLIPPED_AT }).le(s[n - 1].absolute()) {
        clipped(s, (n - 1) as nat) + 1
    } else {
        clipped(s, (n - 1) as nat)
    }
}

/// Root mean square, measured in double precision.
pub open spec fn precise_level(s: Seq<Binary32>) -> Binary32 {
    energy(s, s.len()).quotient(Binary64::whole(s.len())).root().narrowed()
}

/// How far the signal is off centre.
pub open spec fn offset(s: Seq<Binary32>) -> Binary32 {
    total(s, s.len()).quotient(Binary64::whole(s.len())).absolute().narrowed()
}

/// Share of clipped samples.
pub open spec fn clipped_share(s: Seq<Binary32>) -> Binary32 {
    Binary32::whole(clipped(s, s.len())).quotient(Binary32::whole(s.len()))
}

/// Samples of a 20 ms frame.
pub open spec fn frame_length(rate: u32) -> nat {
    if rate / 50 < 1 {
        1
    } else {
        (rate / 50) as nat
    }
}

/// The `k`-th frame; the last one may be short.
pub open spec fn frame(s: Seq<Binary32>, len: nat, k: int) -> Seq<Binary32> {
    s.subrange(
        k * len,
        if k * len + len <= s.len() {
            k * len + len
        } else {
            s.len() as int
        },
    )
}

/// How many frames there are, a short one at the end included.
pub open spec fn frame_count(s: Seq<Binary32>, len: nat) -> nat {
    ((s.len() + len - 1) / len as int) as nat
}

/// A frame long enough to be judged.
pub open spec fn judged(f: Seq<Binary32>, len: nat) -> bool {
    f.len() >= len / 2
}

/// A frame with speech in it.
pub open spec fn active(f: Seq<Binary32>) -> bool {
    (Binary32 { bits: ACTIVE_LEVEL }).le(audio::level(f))
}

/// How many of the first `k` frames are judged, and how many of those are
/// active.
pub open spec fn activity(s: Seq<Binary32>, len: nat, k: nat) -> (nat, nat)
    decreases k,
{
    if k == 0 {
        (0, 0)
    } else {
        let before = activity(s, len, (k - 1) as nat);
        let f = frame(s, len, k - 1);
        if !judged(f, len) {
            before
        } else if active(f) {
            (before.0 + 1, before.1 + 1)
        } else {
            (before.0 + 1, before.1)
        }
    }
}

/// Share of active frames.
pub open spec fn active_share(s: Seq<Binary32>, rate: u32) -> Binary32 {
    let len = frame_length(rate);
    let (n, k) = activity(s, len, frame_count(s, len));
    Binary32::whole(k).quotient(
        Binary32::whole(
            if n == 0 {
                1
            } else {
                n
            },
        ),
    )
}

/// There is nothing, or something that is not a number.
pub open spec fn broken(s: Seq<Binary32>) -> bool {
    s.len() == 0 || exists|i: int| 0 <= i < s.len() && !(#[trigger] s[i]).finite()
}

/// The judgement of a recording that is not broken, at a level of `dbfs`.
pub open spec fn judgement(s: Seq<Binary32>, rate: u32, dbfs: Binary32) -> Option<CaptureFault> {
    if dbfs.lt(Binary32 { bits: LEAST_DBFS }) || peak(s, s.len()).lt(Binary32 { bits: LEAST_PEAK }) {
        Some(CaptureFault::TooQuiet { rms_dbfs: dbfs })
    } else if (Binary32 { bits: MOST_CLIPPED }).lt(clipped_share(s)) {
        Some(
            CaptureFault::Clipped {
                percent: clipped_share(s).product(Binary32 { bits: HUNDRED }),
            },
        )
    } else if (Binary32 { bits: MOST_DC }).lt(offset(s)) {
        Some(CaptureFault::DcOffset)
    } else if active_share(s, rate).lt(Binary32 { bits: LEAST_ACTIVE }) {
        Some(
            CaptureFault::TooLittleSpeech {
                percent: active_share(s, rate).product(Binary32 { bits: HUNDRED }),
            },
        )
    } else {
        None
    }
}

/// The level that is converted to decibels.
pub open spec fn level_to_convert(s: Seq<Binary32>) -> Binary32 {
    precise_level(s).larger(Binary32 { bits: LEAST_LEVEL })
}

/// Whether there is nothing, or something that is not a number.
fn is_broken(audio: &[Binary32]) -> (r: bool)
    ensures
        r == broken(audio@),
{
    if audio.len() == 0 {
        return true;
    }
    let mut i: usize = 0;
    while i < audio.len()
        invariant
            i <= audio@.len(),
            audio@.len() > 0,
            forall|k: int| 0 <= k < i ==> (#[trigger] audio@[k]).finite(),
        decreases audio@.len() - i,
    {
        if !audio[i].is_finite() {
            assert(!audio@[i as int].finite());
            return true;
        }
        i = i + 1;
    }
    false
}

/// Share of active frames.
fn measure_activity(audio: &[Binary32], sample_rate: u32) -> (r: Binary32)
    ensures
        r == active_share(audio@, sample_rate),
{
    let per_frame: u32 = sample_rate / 50;
    let len: usize = if per_frame < 1 {
        1
    } else {
        per_frame as usize
    };
    let n: usize = audio.len();
    let mut frames: u64 = 0;
    let mut active_frames: u64 = 0;
    let mut start: usize = 0;
    let ghost mut k: nat = 0;
    let ghost all = frame_count(audio@, len as nat);
    proof {
        assert(0 * len == 0);
    }
    while start < n
        invariant
            n == audio@.len(),
            len == frame_length(sample_rate),
            len > 0,
            start == (if k * len <= n {
                k * len
            } else {
                n as int
            }),
            k <= start,
            frames == activity(audio@, len as nat, k).0,
            active_frames == activity(audio@, len as nat, k).1,
            active_frames <= frames <= k,
            start < n ==> k * len < n,
            start >= n ==> k == frame_count(audio@, len as nat) || n == 0,
            n == 0 ==> k == 0,
        decreases n - start,
    {
        let end: usize = if n - start < len {
            n
        } else {
            start + len
        };
        let piece: &[Binary32] = vstd::slice::slice_subrange(audio, start, end);
        assert(piece@ =~= frame(audio@, len as nat, k as int));
        if piece.len() >= len / 2 {
            frames = frames + 1;
            if (Binary32 { bits: ACTIVE_LEVEL }).at_most(rms(piece)) {
                active_frames = active_frames + 1;
            }
        }
        proof {
            assert((k + 1) * len == k * len + len) by (nonlinear_arith);
            k = k + 1;
            if end == n {
                lemma_frame_count(n as nat, len as nat, k);
            }
        }
        start = end;
    }
    proof {
        if n == 0 {
            assert((len - 1) / len as int == 0) by (nonlinear_arith)
                requires
                    len > 0,
            ;
        }
    }
    let judged_frames: u64 = if frames < 1 {
        1
    } else {
        frames
    };
    Binary32::from_count(active_frames).over(Binary32::from_count(judged_frames))
}

proof fn lemma_frame_count(n: nat, len: nat, k: nat)
    requires
        len > 0,
        k > 0,
        (k - 1) * len < n <= k * len,
    ensures
        (n + len - 1) / len as int == k,
{
    let r = n + len - 1 - k * len;
    assert(0 <= r < len) by (nonlinear_arith)
        requires
            r == n + len - 1 - k * len,
            (k - 1) * len < n <= k * len,
    ;
    vstd::arithmetic::div_mod::lemma_fundamental_div_mod_converse(
        n + len - 1,
        len as int,
        k as int,
        r,
    );
}

/// Refuses recordings that would make a misleading profile. The limits are
/// broad: they ask for no studio-perfect level. `decibels` converts a level to
/// dBFS.
pub fn validate_enrollment_capture<D>(audio: &[Binary32], sample_rate: u32, decibels: &D) -> (r:
    Result<(), CaptureFault>) where D: Fn(Binary32) -> Binary32
    requires
        !broken(audio@) ==> decibels.requires((level_to_convert(audio@),)),
    ensures
        broken(audio@) ==> r == Err::<(), CaptureFault>(CaptureFault::Broken),
        !broken(audio@) ==> exists|dbfs: Binary32| #[trigger]
            decibels.ensures((level_to_convert(audio@),), dbfs) && (match judgement(
                audio@,
                sample_rate,
                dbfs,
            ) {
                Some(fault) => r == Err::<(), CaptureFault>(fault),
                None => r == Ok::<(), CaptureFault>(()),
            }),
{
    if is_broken(audio) {
        return Err(CaptureFault::Broken);
    }
    let mut sum: Binary64 = Binary64 { bits: 0 };
    let mut sum_sq: Binary64 = Binary64 { bits: 0 };
    let mut top: Binary32 = Binary32 { bits: 0 };
    let mut clips: u64 = 0;
    let mut i: usize = 0;
    while i < audio.len()
        invariant
            i <= audio@.len(),
            sum == total(audio@, i as nat),
            sum_sq == energy(audio@, i as nat),
            top == peak(audio@, i as nat),
            clips == clipped(audio@, i as nat),
            clips <= i,
        decreases audio@.len() - i,
    {
        let sample: Binary32 = audio[i];
        let wide: Binary64 = Binary64::widen(sample);
        sum = sum.plus(wide);
        sum_sq = sum_sq.plus(wide.times(wide));
        let size: Binary32 = sample.magnitude();
        top = top.maximum(size);
        if (Binary32 { bits: CLIPPED_AT }).at_most(size) {
            clips = clips + 1;
        }
        i = i + 1;
    }
    let count: u64 = audio.len() as u64;
    let level: Binary32 = sum_sq.over(Binary64::from_count(count)).square_root().narrow();
    let rms_dbfs: Binary32 = decibels(level.maximum(Binary32 { bits: LEAST_LEVEL }));
    assert(decibels.ensures((level_to_convert(audio@),), rms_dbfs));
    if rms_dbfs.less(Binary32 { bits: LEAST_DBFS }) || top.less(Binary32 { bits: LEAST_PEAK }) {
        return Err(CaptureFault::TooQuiet { rms_dbfs });
    }
    let share: Binary32 = Binary32::from_count(clips).over(Binary32::from_count(count));
    if (Binary32 { bits: MOST_CLIPPED }).less(share) {
        return Err(CaptureFault::Clipped { percent: share.times(Binary32 { bits: HUNDRED }) });
    }
    let dc: Binary32 = sum.over(Binary64::from_count(count)).magnitude().narrow();
    if (Binary32 { bits: MOST_DC }).less(dc) {
        return Err(CaptureFault::DcOffset);
    }
    let spoken: Binary32 = measure_activity(audio, sample_rate);
    if spoken.less(Binary32 { bits: LEAST_ACTIVE }) {
        return Err(
            CaptureFault::TooLittleSpeech { percent: spoken.times(Binary32 { bits: HUNDRED }) },
        );
    }
    Ok(())
}

/// `a` does not come after `b` in the total order.
pub open spec fn in_order() -> spec_fn(Binary32, Binary32) -> bool {
    |a: Binary32, b: Binary32| binary::rank(a.parts()) <= binary::rank(b.parts())
}

/// Similarities of all pairs among the first `n` anchors.
pub open spec fn pair_similarities(anchors: Seq<Seq<Binary32>>, n: nat) -> Seq<Binary32>
    decreases n,
{
    if n == 0 {
        Seq::empty()
    } else {
        pair_similarities(anchors, (n - 1) as nat) + Seq::new(
            (n - 1) as nat,
            |i: int| cosine(anchors[i], anchors[n - 1]),
        )
    }
}

/// Median similarity of the pairs; zero where there is none.
pub open spec fn consistency(anchors: Seq<Seq<Binary32>>) -> Binary32 {
    let s = pair_similarities(anchors, anchors.len());
    if anchors.len() < 2 {
        vectors::zero()
    } else {
        s.sort_by(in_order())[(s.len() / 2) as int]
    }
}

proof fn lemma_total_order()
    ensures
        total_ordering(in_order()),
{
    let leq = in_order();
    assert forall|a: Binary32, b: Binary32| #[trigger] leq(a, b) && #[trigger] leq(
        b,
        a,
    ) implies a == b by {}
}

/// Puts a number into its place among sorted ones.
fn insert_sorted(v: &mut Vec<Binary32>, x: Binary32)
    requires
        sorted_by(old(v)@, in_order()),
    ensures
        sorted_by(final(v)@, in_order()),
        final(v)@.to_multiset() == old(v)@.to_multiset().insert(x),
        final(v)@.len() == old(v)@.len() + 1,
{
    let ghost before = v@;
    let mut at: usize = v.len();
    while at > 0 && x.ranks_below(v[at - 1])
        invariant
            v@ == before,
            at <= v@.len(),
            sorted_by(before, in_order()),
            forall|k: int| at <= k < before.len() ==> binary::rank(x.parts()) < binary::rank(
                (#[trigger] before[k]).parts(),
            ),
        ensures
            v@ == before,
            at <= v@.len(),
            forall|k: int| at <= k < before.len() ==> binary::rank(x.parts()) < binary::rank(
                (#[trigger] before[k]).parts(),
            ),
            at > 0 ==> binary::rank(before[at - 1].parts()) <= binary::rank(x.parts()),
        decreases at,
    {
        at = at - 1;
    }
    v.insert(at, x);
    proof {
        broadcast use vstd::seq_lib::group_to_multiset_ensures;

        let leq = in_order();
        let after = before.insert(at as int, x);
        assert(v@ =~= after);
        assert forall|i: int, j: int| 0 <= i < j < after.len() implies #[trigger] leq(
            after[i],
            after[j],
        ) by {
            if i < at && j == at {
                if i < at - 1 {
                    assert(leq(before[i], before[at - 1]));
                }
            } else if i < at && j > at {
                assert(leq(before[i], before[j - 1]));
            } else if i == at {
                assert(before[j - 1] == after[j]);
            } else if i > at {
                assert(leq(before[i - 1], before[j - 1]));
            } else {
                assert(leq(before[i], before[j]));
            }
        }
        vstd::seq_lib::to_multiset_insert(before, at as int, x);
    }
}

/// Median pairwise similarity of enrollment anchors: robust to one unusual
/// vowel, and low for a recording with noise or other voices in it.
pub fn enrollment_consistency(anchors: &[Vec<Binary32>]) -> (r: Binary32)
    ensures
        r == consistency(vectors::rows(anchors@)),
{
    let ghost a = vectors::rows(anchors@);
    let n: usize = anchors.len();
    if n < 2 {
        return Binary32 { bits: 0 };
    }
    let mut sorted: Vec<Binary32> = Vec::new();
    let mut j: usize = 0;
    assert(sorted@ =~= pair_similarities(a, 0));
    while j < n
        invariant
            n == anchors@.len(),
            a == vectors::rows(anchors@),
            j <= n,
            sorted_by(sorted@, in_order()),
            sorted@.to_multiset() == pair_similarities(a, j as nat).to_multiset(),
        decreases n - j,
    {
        let ghost earlier = pair_similarities(a, j as nat);
        let ghost row = Seq::new(j as nat, |i: int| cosine(a[i], a[j as int]));
        let mut i: usize = 0;
        assert(earlier + row.take(0) =~= earlier);
        while i < j
            invariant
                n == anchors@.len(),
                a == vectors::rows(anchors@),
                j < n,
                i <= j,
                row == Seq::new(j as nat, |i: int| cosine(a[i], a[j as int])),
                sorted_by(sorted@, in_order()),
                sorted@.to_multiset() == (earlier + row.take(i as int)).to_multiset(),
            decreases j - i,
        {
            let x: Binary32 = cos_similarity(anchors[i].as_slice(), anchors[j].as_slice());
            insert_sorted(&mut sorted, x);
            proof {
                broadcast use vstd::seq_lib::group_to_multiset_ensures;

                assert(x == row[i as int]);
                assert((earlier + row.take(i as int)).push(x) =~= earlier + row.take(i + 1));
            }
            i = i + 1;
        }
        assert(row.take(j as int) =~= row);
        assert(earlier + row =~= pair_similarities(a, (j + 1) as nat));
        j = j + 1;
    }
    proof {
        let s = pair_similarities(a, n as nat);
        lemma_total_order();
        s.lemma_sort_by_ensures(in_order());
        vstd::seq_lib::lemma_sorted_unique(sorted@, s.sort_by(in_order()), in_order());
        broadcast use vstd::seq_lib::group_to_multiset_ensures;

        assert(sorted@.len() == sorted@.to_multiset().len());
        assert(s.len() == s.to_multiset().len());
        lemma_some_pairs(a, n as nat);
    }
    sorted[sorted.len() / 2]
}

proof fn lemma_some_pairs(a: Seq<Seq<Binary32>>, n: nat)
    requires
        n >= 2,
    ensures
        pair_similarities(a, n).len() > 0,
{
}

proof fn lemma_silent_peak(s: Seq<Binary32>, n: nat)
    requires
        n <= s.len(),
        forall|i: int| 0 <= i < s.len() ==> (#[trigger] s[i]).parts().pattern == 0,
    ensures
        peak(s, n).parts().pattern == 0,
    decreases n,
{
    if n > 0 {
        lemma_silent_peak(s, (n - 1) as nat);
        assert(s[n - 1].parts().pattern == 0);
        reveal(Binary32::absolute);
    }
}

/// Silence is never enrolled, whatever its level is taken for.
pub proof fn law_silence_is_refused(s: Seq<Binary32>, rate: u32, dbfs: Binary32)
    requires
        forall|i: int| 0 <= i < s.len() ==> (#[trigger] s[i]).parts().pattern == 0,
    ensures
        broken(s) || judgement(s, rate, dbfs) == Some(CaptureFault::TooQuiet { rms_dbfs: dbfs }),
{
    lemma_silent_peak(s, s.len());
    let p = peak(s, s.len());
    assert(p.lt(Binary32 { bits: LEAST_PEAK })) by {
        reveal(Binary32::lt);
        crate::binary32::lemma_format();
        let f = crate::binary32::format();
        crate::binary::lemma_order(f, 0, (Binary32 { bits: LEAST_PEAK }).parts().pattern);
    }
}

proof fn lemma_all_clipped(s: Seq<Binary32>, n: nat)
    requires
        n <= s.len(),
        forall|i: int|
            0 <= i < s.len() ==> (Binary32 { bits: CLIPPED_AT }).le(
                (#[trigger] s[i]).absolute(),
            ),
    ensures
        clipped(s, n) == n,
    decreases n,
{
    if n > 0 {
        lemma_all_clipped(s, (n - 1) as nat);
        assert((Binary32 { bits: CLIPPED_AT }).le(s[n - 1].absolute()));
    }
}

/// A recording that is clipped throughout is never enrolled.
pub proof fn law_clipping_is_refused(s: Seq<Binary32>, rate: u32, dbfs: Binary32)
    requires
        0 < s.len() <= u64::MAX,
        forall|i: int|
            0 <= i < s.len() ==> (Binary32 { bits: CLIPPED_AT }).le(
                (#[trigger] s[i]).absolute(),
            ),
    ensures
        judgement(s, rate, dbfs) is Some,
{
    lemma_all_clipped(s, s.len());
    let w = Binary32::whole(s.len());
    crate::binary32::lemma_count(s.len());
    crate::binary32::lemma_self_quotient(w);
    assert((Binary32 { bits: MOST_CLIPPED }).lt(Binary32 { bits: 0x3f80_0000 })) by {
        reveal(Binary32::lt);
        crate::binary32::lemma_format();
        let f = crate::binary32::format();
        crate::binary::lemma_order(
            f,
            (Binary32 { bits: MOST_CLIPPED }).parts().pattern,
            (Binary32 { bits: 0x3f80_0000 }).parts().pattern,
        );
    }
}

/// Similarities of some anchors to another one.
pub open spec fn row(anchors: Seq<Seq<Binary32>>, x: Seq<Binary32>) -> Seq<Binary32> {
    Seq::new(anchors.len(), |i: int| cosine(anchors[i], x))
}

/// Similarities of all pairs of some anchors, in no order.
pub open spec fn pairs(anchors: Seq<Seq<Binary32>>) -> Multiset<Binary32> {
    pair_similarities(anchors, anchors.len()).to_multiset()
}

proof fn lemma_concat<A>(a: Seq<A>, b: Seq<A>)
    ensures
        (a + b).to_multiset() == a.to_multiset().add(b.to_multiset()),
{
    vstd::seq_lib::lemma_multiset_commutative(a, b);
}

/// The pairs of the first anchors do not depend on the later ones.
proof fn lemma_earlier_pairs(a: Seq<Seq<Binary32>>, b: Seq<Seq<Binary32>>, n: nat)
    requires
        n <= a.len(),
        n <= b.len(),
        forall|i: int| 0 <= i < n ==> a[i] == b[i],
    ensures
        pair_similarities(a, n) == pair_similarities(b, n),
    decreases n,
{
    if n > 0 {
        lemma_earlier_pairs(a, b, (n - 1) as nat);
        assert(Seq::new((n - 1) as nat, |i: int| cosine(a[i], a[n - 1])) =~= Seq::new(
            (n - 1) as nat,
            |i: int| cosine(b[i], b[n - 1]),
        ));
    }
}

/// One more anchor brings its similarities to the others.
proof fn lemma_pairs_push(a: Seq<Seq<Binary32>>, x: Seq<Binary32>)
    ensures
        pairs(a.push(x)) == pairs(a).add(row(a, x).to_multiset()),
{
    let b = a.push(x);
    lemma_earlier_pairs(a, b, a.len());
    assert(Seq::new(a.len(), |i: int| cosine(b[i], b[a.len() as int])) =~= row(a, x));
    lemma_concat(pair_similarities(a, a.len()), row(a, x));
}

/// Taking an anchor out of a row takes out its similarity.
proof fn lemma_row_remove(a: Seq<Seq<Binary32>>, j: int, x: Seq<Binary32>)
    requires
        0 <= j < a.len(),
    ensures
        row(a, x).to_multiset() == row(a.remove(j), x).to_multiset().insert(cosine(a[j], x)),
{
    let r = row(a, x);
    let s = row(a.remove(j), x);
    assert(r =~= s.insert(j, r[j]));
    vstd::seq_lib::to_multiset_insert(s, j, r[j]);
}

/// Taking an anchor out takes out its similarities to the others.
proof fn lemma_pairs_remove(a: Seq<Seq<Binary32>>, j: int)
    requires
        0 <= j < a.len(),
    ensures
        pairs(a) == pairs(a.remove(j)).add(row(a.remove(j), a[j]).to_multiset()),
    decreases a.len(),
{
    let x = a[j];
    let y = a.last();
    let b = a.drop_last();
    assert(a =~= b.push(y));
    if j == a.len() - 1 {
        assert(a.remove(j) =~= b);
        lemma_pairs_push(b, y);
    } else {
        let c = b.remove(j);
        assert(a.remove(j) =~= c.push(y));
        lemma_pairs_remove(b, j);
        lemma_pairs_push(b, y);
        lemma_pairs_push(c, y);
        lemma_row_remove(b, j, y);
        law_cosine_is_symmetric(x, y);
        assert(row(c.push(y), x) =~= row(c, x).push(cosine(y, x)));
        vstd::seq_lib::to_multiset_build(row(c, x), cosine(y, x));
        assert(pairs(a) =~= pairs(a.remove(j)).add(row(a.remove(j), x).to_multiset()));
    }
}

/// Where the same anchors stand in another order, each of them is found.
proof fn lemma_found(a: Seq<Seq<Binary32>>, b: Seq<Seq<Binary32>>) -> (j: int)
    requires
        a.len() > 0,
        a.to_multiset() == b.to_multiset(),
    ensures
        0 <= j < b.len(),
        b[j] == a.last(),
        b.remove(j).to_multiset() == a.drop_last().to_multiset(),
        b.len() == a.len(),
{
    let x = a.last();
    vstd::seq_lib::to_multiset_len(a);
    vstd::seq_lib::to_multiset_len(b);
    assert(a[a.len() - 1] == x);
    assert(a.contains(x));
    vstd::seq_lib::to_multiset_contains(a, x);
    vstd::seq_lib::to_multiset_contains(b, x);
    let j = choose|j: int| 0 <= j < b.len() && b[j] == x;
    vstd::seq_lib::to_multiset_remove(b, j);
    vstd::seq_lib::to_multiset_remove(a, a.len() - 1);
    assert(a.remove(a.len() - 1) =~= a.drop_last());
    j
}

/// A row in another order holds the same similarities.
proof fn lemma_row_reordered(
    a: Seq<Seq<Binary32>>,
    b: Seq<Seq<Binary32>>,
    x: Seq<Binary32>,
)
    requires
        a.to_multiset() == b.to_multiset(),
    ensures
        row(a, x).to_multiset() == row(b, x).to_multiset(),
    decreases a.len(),
{
    vstd::seq_lib::to_multiset_len(a);
    vstd::seq_lib::to_multiset_len(b);
    if a.len() == 0 {
        assert(row(a, x) =~= row(b, x));
    } else {
        let j = lemma_found(a, b);
        lemma_row_reordered(a.drop_last(), b.remove(j), x);
        lemma_row_remove(b, j, x);
        lemma_row_remove(a, a.len() - 1, x);
        assert(a.remove(a.len() - 1) =~= a.drop_last());
    }
}

proof fn lemma_pairs_reordered(a: Seq<Seq<Binary32>>, b: Seq<Seq<Binary32>>)
    requires
        a.to_multiset() == b.to_multiset(),
    ensures
        pairs(a) == pairs(b),
    decreases a.len(),
{
    vstd::seq_lib::to_multiset_len(a);
    vstd::seq_lib::to_multiset_len(b);
    if a.len() == 0 {
        assert(pair_similarities(a, 0) =~= pair_similarities(b, 0));
    } else {
        let j = lemma_found(a, b);
        let last = a.len() - 1;
        assert(a.remove(last) =~= a.drop_last());
        lemma_pairs_reordered(a.drop_last(), b.remove(j));
        lemma_row_reordered(a.drop_last(), b.remove(j), a.last());
        lemma_pairs_remove(a, last);
        lemma_pairs_remove(b, j);
    }
}

/// The order in which the anchors were taken makes no difference to their
/// consistency.
pub proof fn law_consistency_ignores_the_order(a: Seq<Seq<Binary32>>, b: Seq<Seq<Binary32>>)
    requires
        a.to_multiset() == b.to_multiset(),
    ensures
        consistency(a) == consistency(b),
{
    lemma_pairs_reordered(a, b);
    vstd::seq_lib::to_multiset_len(a);
    vstd::seq_lib::to_multiset_len(b);
    let s = pair_similarities(a, a.len());
    let t = pair_similarities(b, b.len());
    lemma_total_order();
    s.lemma_sort_by_ensures(in_order());
    t.lemma_sort_by_ensures(in_order());
    vstd::seq_lib::lemma_sorted_unique(s.sort_by(in_order()), t.sort_by(in_order()), in_order());
    vstd::seq_lib::to_multiset_len(s);
    vstd::seq_lib::to_multiset_len(t);
}

/// Of two anchors the consistency is their similarity; of fewer it is zero.
pub proof fn law_consistency_of_a_pair(a: Seq<Binary32>, b: Seq<Binary32>)
    ensures
        consistency(seq![a, b]) == cosine(a, b),
        consistency(seq![a]) == vectors::zero(),
        consistency(Seq::empty()) == vectors::zero(),
{
    let v = seq![a, b];
    let s = pair_similarities(v, 2);
    reveal_with_fuel(pair_similarities, 3);
    assert(s =~= seq![cosine(a, b)]);
    let leq = in_order();
    lemma_total_order();
    s.lemma_sort_by_ensures(leq);
    vstd::seq_lib::lemma_sorted_unique(s, s.sort_by(leq), leq);
}

/// How many of some numbers rank below `x`.
pub open spec fn ranked_below(s: Seq<Binary32>, x: Binary32) -> nat {
    s.filter(|y: Binary32| binary::rank(y.parts()) < binary::rank(x.parts())).len()
}

/// How many of some numbers rank above `x`.
pub open spec fn ranked_above(s: Seq<Binary32>, x: Binary32) -> nat {
    s.filter(|y: Binary32| binary::rank(y.parts()) > binary::rank(x.parts())).len()
}

/// As many numbers pass a test in whatever order they stand.
proof fn lemma_filter_reordered(a: Seq<Binary32>, b: Seq<Binary32>, p: spec_fn(Binary32) -> bool)
    requires
        a.to_multiset() == b.to_multiset(),
    ensures
        a.filter(p).len() == b.filter(p).len(),
{
    lemma_filter_multiset(a, p);
    lemma_filter_multiset(b, p);
}

proof fn lemma_filter_multiset(a: Seq<Binary32>, p: spec_fn(Binary32) -> bool)
    ensures
        a.filter(p).len() == a.to_multiset().filter(p).len(),
    decreases a.len(),
{
    broadcast use vstd::seq_lib::group_to_multiset_ensures;
    broadcast use vstd::multiset::group_multiset_axioms;

    reveal(Seq::filter);
    if a.len() == 0 {
        assert(a.to_multiset().filter(p) =~= Multiset::empty());
    } else {
        let head = a.drop_last();
        let x = a.last();
        lemma_filter_multiset(head, p);
        assert(a =~= head.push(x));
        assert(a.to_multiset() =~= head.to_multiset().insert(x));
        if p(x) {
            assert(a.to_multiset().filter(p) =~= head.to_multiset().filter(p).insert(x));
        } else {
            assert(a.to_multiset().filter(p) =~= head.to_multiset().filter(p));
        }
    }
}

/// Where only numbers at places before `k` can pass a test, at most `k` pass.
proof fn lemma_filter_front(s: Seq<Binary32>, p: spec_fn(Binary32) -> bool, k: nat)
    requires
        forall|i: int| k <= i < s.len() ==> !p(#[trigger] s[i]),
    ensures
        s.filter(p).len() <= k,
    decreases s.len(),
{
    reveal(Seq::filter);
    if s.len() > 0 {
        let head = s.drop_last();
        if s.len() <= k {
            s.lemma_filter_len(p);
        } else {
            assert(!p(s[s.len() - 1]));
            lemma_filter_front(head, p, k);
        }
    }
}

/// Where only numbers at places behind `k` can pass a test, no more pass than
/// stand there.
proof fn lemma_filter_back(s: Seq<Binary32>, p: spec_fn(Binary32) -> bool, k: nat)
    requires
        k < s.len(),
        forall|i: int| 0 <= i <= k ==> !p(#[trigger] s[i]),
    ensures
        s.filter(p).len() <= s.len() - 1 - k,
    decreases s.len(),
{
    reveal(Seq::filter);
    let head = s.drop_last();
    if s.len() == k + 1 {
        lemma_filter_front(s, p, 0);
    } else {
        lemma_filter_back(head, p, k);
    }
}

/// There are as many pairs as there should be.
proof fn lemma_pair_count(anchors: Seq<Seq<Binary32>>, n: nat)
    ensures
        2 * pair_similarities(anchors, n).len() == n * (n - 1),
    decreases n,
{
    if n > 0 {
        lemma_pair_count(anchors, (n - 1) as nat);
        assert(n * (n - 1) == (n - 1) * (n - 2) + 2 * (n - 1)) by (nonlinear_arith);
    } else {
        assert(n * (n - 1) == 0) by (nonlinear_arith)
            requires
                n == 0,
        ;
    }
}

/// Every pair is among the pairs.
proof fn lemma_pair_at(anchors: Seq<Seq<Binary32>>, n: nat, k: int) -> (r: (int, int))
    requires
        0 <= k < pair_similarities(anchors, n).len(),
    ensures
        0 <= r.0 < r.1 < n,
        pair_similarities(anchors, n)[k] == cosine(anchors[r.0], anchors[r.1]),
    decreases n,
{
    let before = pair_similarities(anchors, (n - 1) as nat);
    if k < before.len() {
        lemma_pair_at(anchors, (n - 1) as nat, k)
    } else {
        (k - before.len(), n - 1)
    }
}

/// No pair is left out.
proof fn lemma_pair_found(anchors: Seq<Seq<Binary32>>, n: nat, i: int, j: int)
    requires
        0 <= i < j < n,
    ensures
        pair_similarities(anchors, n).contains(cosine(anchors[i], anchors[j])),
    decreases n,
{
    let before = pair_similarities(anchors, (n - 1) as nat);
    let s = pair_similarities(anchors, n);
    let x = cosine(anchors[i], anchors[j]);
    if j < n - 1 {
        lemma_pair_found(anchors, (n - 1) as nat, i, j);
        let k = choose|k: int| 0 <= k < before.len() && before[k] == x;
        assert(s[k] == x);
    } else {
        assert(s[before.len() + i] == x);
    }
}

/// The consistency of some anchors stands in the middle of their pairs: it is
/// the similarity of one of them, and of all `p` pairs at most `p / 2` are less
/// alike and at most `p - 1 - p / 2` are more alike. So neither one good pair
/// among bad ones lifts it, nor one bad pair among good ones spoils it.
pub proof fn law_consistency_is_the_middle_of_the_pairs(anchors: Seq<Seq<Binary32>>)
    requires
        anchors.len() >= 2,
    ensures
        ({
            let n = anchors.len();
            let s = pair_similarities(anchors, n);
            let x = consistency(anchors);
            &&& s.len() == n * (n - 1) / 2
            &&& forall|i: int, j: int|
                0 <= i < j < n ==> s.contains(#[trigger] cosine(anchors[i], anchors[j]))
            &&& ranked_below(s, x) <= s.len() / 2
            &&& ranked_above(s, x) <= s.len() - 1 - s.len() / 2
            &&& exists|i: int, j: int|
                0 <= i < j < n && #[trigger] cosine(anchors[i], anchors[j]) == x
        }),
{
    let n = anchors.len();
    let s = pair_similarities(anchors, n);
    let leq = in_order();
    lemma_pair_count(anchors, n);
    lemma_some_pairs(anchors, n);
    lemma_total_order();
    s.lemma_sort_by_ensures(leq);
    let sorted = s.sort_by(leq);
    vstd::seq_lib::to_multiset_len(s);
    vstd::seq_lib::to_multiset_len(sorted);
    let k = (s.len() / 2) as nat;
    let x = consistency(anchors);
    assert(sorted[k as int] == x);
    let below = |y: Binary32| binary::rank(y.parts()) < binary::rank(x.parts());
    let above = |y: Binary32| binary::rank(y.parts()) > binary::rank(x.parts());
    assert forall|i: int| k <= i < sorted.len() implies !below(#[trigger] sorted[i]) by {
        if i > k {
            assert(leq(sorted[k as int], sorted[i]));
        }
    }
    assert forall|i: int| 0 <= i <= k implies !above(#[trigger] sorted[i]) by {
        if i < k {
            assert(leq(sorted[i], sorted[k as int]));
        }
    }
    lemma_filter_front(sorted, below, k);
    lemma_filter_back(sorted, above, k);
    lemma_filter_reordered(s, sorted, below);
    lemma_filter_reordered(s, sorted, above);
    assert(sorted.contains(x));
    vstd::seq_lib::to_multiset_contains(sorted, x);
    vstd::seq_lib::to_multiset_contains(s, x);
    let at = choose|at: int| 0 <= at < s.len() && s[at] == x;
    let (i, j) = lemma_pair_at(anchors, n, at);
    assert(cosine(anchors[i], anchors[j]) == x);
    assert forall|i: int, j: int| 0 <= i < j < n implies s.contains(
        #[trigger] cosine(anchors[i], anchors[j]),
    ) by {
        lemma_pair_found(anchors, n, i, j);
    }
}

/// No sample is further from zero than the peak, and one is as far, where any
/// is off zero.
pub proof fn law_peak_is_the_farthest_sample(s: Seq<Binary32>, n: nat)
    requires
        n <= s.len(),
        forall|i: int| 0 <= i < n ==> (#[trigger] s[i]).finite(),
    ensures
        vectors::zero().le(peak(s, n)),
        forall|i: int| 0 <= i < n ==> (#[trigger] s[i]).absolute().le(peak(s, n)),
        peak(s, n) == vectors::zero() || exists|i: int|
            0 <= i < n && (#[trigger] s[i]).absolute() == peak(s, n),
    decreases n,
{
    crate::binary32::lemma_total(vectors::zero(), vectors::zero(), vectors::zero());
    if n > 0 {
        law_peak_is_the_farthest_sample(s, (n - 1) as nat);
        let p = peak(s, (n - 1) as nat);
        let q = peak(s, n);
        assert(s[n - 1].finite());
        let x = s[n - 1].absolute();
        assert(!x.nan()) by {
            reveal(Binary32::absolute);
        }
        assert(!p.nan()) by {
            reveal(Binary32::le);
        }
        crate::binary32::lemma_total(p, x, q);
        crate::binary32::lemma_total(x, p, q);
        crate::binary32::lemma_total(vectors::zero(), p, q);
        assert forall|i: int| 0 <= i < n implies (#[trigger] s[i]).absolute().le(q) by {
            if i < n - 1 {
                let y = s[i].absolute();
                assert(!y.nan()) by {
                    reveal(Binary32::absolute);
                }
                crate::binary32::lemma_total(y, p, q);
            }
        }
        if q == p && p != vectors::zero() {
            let i = choose|i: int| 0 <= i < n - 1 && (#[trigger] s[i]).absolute() == p;
            assert(s[i].absolute() == q);
        }
    }
}

/// A recording in which no sample reaches 0.025 is too quiet, and so is one
/// below -42 dBFS, whatever else is wrong with it.
pub proof fn law_quiet_recordings_are_refused(s: Seq<Binary32>, rate: u32, dbfs: Binary32)
    requires
        forall|i: int| 0 <= i < s.len() ==> (#[trigger] s[i]).finite(),
        dbfs.lt(Binary32 { bits: 0xc228_0000 }) || forall|i: int|
            0 <= i < s.len() ==> (#[trigger] s[i]).absolute().lt(Binary32 { bits: 0x3ccc_cccd }),
    ensures
        judgement(s, rate, dbfs) == Some(CaptureFault::TooQuiet { rms_dbfs: dbfs }),
{
    law_peak_is_the_farthest_sample(s, s.len());
    assert(vectors::zero().lt(Binary32 { bits: 0x3ccc_cccd })) by {
        reveal(Binary32::lt);
        crate::binary32::lemma_format();
        crate::binary::lemma_order(crate::binary32::format(), 0, 0x3ccc_cccd);
    }
}

/// As many samples are clipped as reach 0.995 on either side.
pub proof fn law_clipped_samples_are_counted(s: Seq<Binary32>, n: nat)
    requires
        n <= s.len(),
    ensures
        clipped(s, n) == s.take(n as int).filter(
            |x: Binary32| (Binary32 { bits: 0x3f7e_b852 }).le(x.absolute()),
        ).len(),
    decreases n,
{
    reveal(Seq::filter);
    if n > 0 {
        law_clipped_samples_are_counted(s, (n - 1) as nat);
        assert(s.take(n as int).drop_last() =~= s.take(n - 1));
    }
}

/// What is accepted is neither too quiet, nor clipped in more than 0.3 % of its
/// samples, nor off centre by more than 0.05, nor silent in more than 55 % of
/// its frames; and what is none of that is accepted.
pub proof fn law_accepted_recordings_are_sound(s: Seq<Binary32>, rate: u32, dbfs: Binary32)
    requires
        s.len() > 0,
        forall|i: int| 0 <= i < s.len() ==> (#[trigger] s[i]).finite(),
    ensures
        judgement(s, rate, dbfs) is None <==> {
            &&& !dbfs.lt(Binary32 { bits: 0xc228_0000 })
            &&& exists|i: int|
                0 <= i < s.len() && !(#[trigger] s[i]).absolute().lt(
                    Binary32 { bits: 0x3ccc_cccd },
                )
            &&& !(Binary32 { bits: 0x3b44_9ba6 }).lt(
                Binary32::whole(
                    s.filter(
                        |x: Binary32| (Binary32 { bits: 0x3f7e_b852 }).le(x.absolute()),
                    ).len(),
                ).quotient(Binary32::whole(s.len())),
            )
            &&& !(Binary32 { bits: 0x3d4c_cccd }).lt(offset(s))
            &&& !active_share(s, rate).lt(Binary32 { bits: 0x3ee6_6666 })
        },
{
    let edge = Binary32 { bits: 0x3ccc_cccd };
    law_peak_is_the_farthest_sample(s, s.len());
    law_clipped_samples_are_counted(s, s.len());
    assert(s.take(s.len() as int) =~= s);
    let p = peak(s, s.len());
    assert(vectors::zero().lt(edge)) by {
        reveal(Binary32::lt);
        crate::binary32::lemma_format();
        crate::binary::lemma_order(crate::binary32::format(), 0, 0x3ccc_cccd);
    }
    if p.lt(edge) {
        assert forall|i: int| 0 <= i < s.len() implies (#[trigger] s[i]).absolute().lt(edge) by {
            assert(s[i].absolute().le(p));
            reveal(Binary32::le);
            reveal(Binary32::lt);
        }
    } else {
        assert(p != vectors::zero());
        let i = choose|i: int| 0 <= i < s.len() && (#[trigger] s[i]).absolute() == p;
        assert(!s[i].absolute().lt(edge));
    }
}

/// The frames of a recording hold every sample of it once, in order: each of
/// them 20 ms, and the last one what is left.
pub proof fn law_frames_are_the_recording(s: Seq<Binary32>, rate: u32, i: int)
    requires
        0 <= i < s.len(),
        rate >= 50,
    ensures
        ({
            let len = frame_length(rate);
            let k = i / len as int;
            &&& len == rate / 50
            &&& 0 <= k < frame_count(s, len)
            &&& i % (len as int) < frame(s, len, k).len() <= len
            &&& frame(s, len, k)[i % len as int] == s[i]
            &&& k < frame_count(s, len) - 1 ==> frame(s, len, k).len() == len
        }),
{
    let len = frame_length(rate);
    let k = i / len as int;
    let n = frame_count(s, len);
    vstd::arithmetic::div_mod::lemma_fundamental_div_mod(i, len as int);
    vstd::arithmetic::mul::lemma_mul_is_commutative(len as int, k);
    vstd::arithmetic::div_mod::lemma_div_pos_is_pos(i, len as int);
    vstd::arithmetic::div_mod::lemma_fundamental_div_mod(s.len() + len - 1, len as int);
    vstd::arithmetic::mul::lemma_mul_is_commutative(len as int, n as int);
    assert(k < n) by (nonlinear_arith)
        requires
            k * len <= i,
            i < s.len(),
            s.len() <= n * len,
            len > 0,
    ;
    if k < n - 1 {
        assert(k * len + len <= s.len()) by (nonlinear_arith)
            requires
                k + 2 <= n,
                n * len < s.len() + len,
                len > 0,
        ;
    }
}

/// A recording in which every frame is judged to be speech is not refused for
/// too little of it, and one without any is never enrolled.
pub proof fn law_speech_is_asked_for(s: Seq<Binary32>, rate: u32, dbfs: Binary32)
    requires
        s.len() <= u64::MAX,
        frame_count(s, frame_length(rate)) <= u64::MAX,
    ensures
        (forall|k: int|
            0 <= k < frame_count(s, frame_length(rate)) ==> !(Binary32 { bits: 0x3bc4_9ba6 }).le(
                audio::level(#[trigger] frame(s, frame_length(rate), k)),
            )) ==> judgement(s, rate, dbfs) is Some,
        (forall|k: int|
            0 <= k < frame_count(s, frame_length(rate)) ==> (Binary32 { bits: 0x3bc4_9ba6 }).le(
                audio::level(#[trigger] frame(s, frame_length(rate), k)),
            )) && (exists|k: int|
            0 <= k < frame_count(s, frame_length(rate)) && judged(
                #[trigger] frame(s, frame_length(rate), k),
                frame_length(rate),
            )) ==> !(judgement(s, rate, dbfs) matches Some(CaptureFault::TooLittleSpeech { .. })),
{
    let len = frame_length(rate);
    let n = frame_count(s, len);
    lemma_activity(s, len, n);
    let (j, a) = activity(s, len, n);
    let least = Binary32 { bits: 0x3ee6_6666 };
    let f = crate::binary32::format();
    crate::binary32::lemma_format();
    crate::binary32::lemma_count(if j == 0 {
        1
    } else {
        j
    });
    let w = Binary32::whole(
        if j == 0 {
            1
        } else {
            j
        },
    );
    if forall|k: int|
        0 <= k < n ==> !(Binary32 { bits: 0x3bc4_9ba6 }).le(
            audio::level(#[trigger] frame(s, len, k)),
        ) {
        assert(a == 0);
        assert(Binary32::whole(0).quotient(w).parts().pattern == 0) by {
            reveal(Binary32::quotient);
            reveal(Binary32::whole);
            crate::binary::lemma_zero(f, 1);
            assert(0 * vstd::arithmetic::power2::pow2(149) == 0);
            crate::binary::lemma_order(f, w.parts().pattern, 0);
            crate::binary::lemma_zero(f, w.parts().magnitude(f));
        }
        assert(Binary32::whole(0).quotient(w).lt(least)) by {
            reveal(Binary32::lt);
            crate::binary::lemma_order(f, 0, 0x3ee6_6666);
        }
    }
    if (forall|k: int|
        0 <= k < n ==> (Binary32 { bits: 0x3bc4_9ba6 }).le(
            audio::level(#[trigger] frame(s, len, k)),
        )) && (exists|k: int| 0 <= k < n && judged(#[trigger] frame(s, len, k), len)) {
        assert(a == j && j > 0);
        crate::binary32::lemma_self_quotient(w);
        assert(!(Binary32 { bits: 0x3f80_0000 }).lt(least)) by {
            reveal(Binary32::lt);
            crate::binary::lemma_order(f, 0x3ee6_6666, 0x3f80_0000);
        }
    }
}

proof fn lemma_activity(s: Seq<Binary32>, len: nat, n: nat)
    ensures
        activity(s, len, n).1 <= activity(s, len, n).0 <= n,
        (forall|k: int| 0 <= k < n ==> !active(#[trigger] frame(s, len, k))) ==> activity(
            s,
            len,
            n,
        ).1 == 0,
        (forall|k: int| 0 <= k < n ==> active(#[trigger] frame(s, len, k))) ==> activity(
            s,
            len,
            n,
        ).1 == activity(s, len, n).0,
        (exists|k: int| 0 <= k < n && judged(#[trigger] frame(s, len, k), len)) ==> activity(
            s,
            len,
            n,
        ).0 > 0,
    decreases n,
{
    if n > 0 {
        lemma_activity(s, len, (n - 1) as nat);
        let f = frame(s, len, n - 1);
        if exists|k: int| 0 <= k < n && judged(#[trigger] frame(s, len, k), len) {
            let k = choose|k: int| 0 <= k < n && judged(#[trigger] frame(s, len, k), len);
            if k < n - 1 {
                assert(judged(frame(s, len, k), len));
            }
        }
    }
}

/// The same number on the other side of zero.
spec fn opposite(f: binary::Format, a: binary::Parts, b: binary::Parts) -> bool {
    a.pattern == b.pattern && (a.pattern == 0 || a.pattern > f.top || a.negative != b.negative)
}

proof fn lemma_opposite_sums(
    f: binary::Format,
    a: binary::Parts,
    b: binary::Parts,
    c: binary::Parts,
    d: binary::Parts,
)
    requires
        f.valid(),
        opposite(f, a, c),
        opposite(f, b, d),
    ensures
        opposite(f, binary::sum(f, a, b), binary::sum(f, c, d)),
{
    binary::lemma_order(f, 0, 0);
    vstd::arithmetic::power2::lemma_pow2_unfold((f.digits - 1) as nat);
    vstd::arithmetic::power2::lemma_pow2_pos((f.digits - 2) as nat);
    assert(binary::not_a_number(f).pattern > f.top);
    if !a.nan(f) && !b.nan(f) {
        assert(a.units(f) == -c.units(f));
        assert(b.units(f) == -d.units(f));
    }
}

/// A recording turned upside down.
pub open spec fn inverted(s: Seq<Binary32>) -> Seq<Binary32> {
    Seq::new(s.len(), |i: int| s[i].negation())
}

/// Every number is what its parts say.
proof fn lemma_joined(p: binary::Parts)
    requires
        p.pattern <= 0x7fff_ffff_ffff_ffff,
    ensures
        Binary64::of(p).parts() == p,
{
}

#[verifier::spinoff_prover]
proof fn lemma_inverted_widened(x: Binary32)
    ensures
        opposite(
            crate::binary64::format(),
            Binary64::widened(x).parts(),
            Binary64::widened(x.negation()).parts(),
        ),
{
    reveal(Binary32::negation);
    reveal(Binary64::widened);
    crate::binary32::lemma_format();
    crate::binary64::lemma_format();
    let f = crate::binary32::format();
    let g = crate::binary64::format();
    let a = x.parts();
    let b = x.negation().parts();
    assert(b == binary::Parts { negative: !a.negative, pattern: a.pattern });
    let p = binary::converted(f, g, a);
    let q = binary::converted(f, g, b);
    if !a.nan(f) && !a.infinite(f) {
        let n = a.magnitude(f) * crate::rounding::up(g.unit - f.unit);
        let d = crate::rounding::up(f.unit - g.unit);
        assert(d > 0) by {
            vstd::arithmetic::power2::lemma_pow2_pos(0);
            assert(f.unit - g.unit < 0);
        }
        binary::lemma_rounded(g, a.negative, n, d);
        binary::lemma_rounded(g, b.negative, n, d);
    }
    assert(p.pattern <= 0x7fff_ffff_ffff_ffff && q.pattern == p.pattern);
    lemma_joined(p);
    lemma_joined(q);
}

proof fn lemma_inverted(x: Binary32)
    ensures
        x.negation().absolute() == x.absolute(),
        x.negation().product(x.negation()) == x.product(x),
        opposite(
            crate::binary64::format(),
            Binary64::widened(x).parts(),
            Binary64::widened(x.negation()).parts(),
        ),
        x.finite() == x.negation().finite(),
{
    lemma_inverted_widened(x);
    reveal(Binary32::negation);
    reveal(Binary32::absolute);
    reveal(Binary32::product);
    crate::binary32::lemma_format();
    let a = x.parts();
    assert(x.negation().parts() == binary::Parts { negative: !a.negative, pattern: a.pattern });
}

proof fn lemma_inverted_counts(s: Seq<Binary32>, n: nat)
    requires
        n <= s.len(),
    ensures
        peak(inverted(s), n) == peak(s, n),
        clipped(inverted(s), n) == clipped(s, n),
        vectors::dot(inverted(s), inverted(s), n) == vectors::dot(s, s, n),
        opposite(
            crate::binary64::format(),
            total(s, n).parts(),
            total(inverted(s), n).parts(),
        ),
        total(s, n).parts().pattern <= 0x7ff8_0000_0000_0000,
    decreases n,
{
    if n > 0 {
        lemma_inverted_counts(s, (n - 1) as nat);
        let x = s[n - 1];
        lemma_inverted(x);
        assert(inverted(s)[n - 1] == x.negation());
        crate::binary64::lemma_format();
        let f = crate::binary64::format();
        let a = total(s, (n - 1) as nat).parts();
        let b = Binary64::widened(x).parts();
        let c = total(inverted(s), (n - 1) as nat).parts();
        let d = Binary64::widened(x.negation()).parts();
        lemma_opposite_sums(f, a, b, c, d);
        let p = binary::sum(f, a, b);
        let q = binary::sum(f, c, d);
        assert(p.pattern <= 0x7ff8_0000_0000_0000 && q.pattern == p.pattern) by {
            let s = a.units(f) + b.units(f);
            if s >= 0 {
                binary::lemma_rounded(f, false, s as nat, 1);
            } else {
                binary::lemma_rounded(f, true, (-s) as nat, 1);
            }
        }
        reveal(Binary64::sum);
        assert(Binary64::of(p).parts() == p);
        assert(Binary64::of(q).parts() == q);
    }
}

proof fn lemma_inverted_activity(s: Seq<Binary32>, len: nat, n: nat)
    requires
        len > 0,
        n <= frame_count(s, len),
    ensures
        activity(inverted(s), len, n) == activity(s, len, n),
    decreases n,
{
    if n > 0 {
        lemma_inverted_activity(s, len, (n - 1) as nat);
        let k = n - 1;
        let f = frame(s, len, k);
        let all = frame_count(s, len) as int;
        vstd::arithmetic::div_mod::lemma_fundamental_div_mod(s.len() + len - 1, len as int);
        vstd::arithmetic::mul::lemma_mul_is_commutative(len as int, all);
        assert(0 <= k * len <= s.len()) by (nonlinear_arith)
            requires
                0 <= k,
                k + 1 <= all,
                all * len <= s.len() + len - 1,
                len > 0,
        ;
        let g = frame(inverted(s), len, k);
        assert(g =~= inverted(f));
        lemma_inverted_counts(f, f.len());
        assert(audio::level(g) == audio::level(f)) by {
            reveal(audio::level);
        }
    }
}

/// Which way round a microphone is wired makes no difference: a recording
/// turned upside down is judged as it is.
pub proof fn law_polarity_does_not_matter(s: Seq<Binary32>, rate: u32, dbfs: Binary32)
    requires
        s.len() > 0,
        s.len() <= u64::MAX,
    ensures
        judgement(inverted(s), rate, dbfs) == judgement(s, rate, dbfs),
{
    let len = frame_length(rate);
    lemma_inverted_counts(s, s.len());
    lemma_inverted_activity(s, len, frame_count(s, len));
    let f = crate::binary64::format();
    crate::binary64::lemma_format();
    crate::binary64::lemma_count(s.len());
    let w = Binary64::whole(s.len());
    let a = total(s, s.len());
    let b = total(inverted(s), s.len());
    assert(a.quotient(w).absolute() == b.quotient(w).absolute()) by {
        reveal(Binary64::quotient);
        reveal(Binary64::absolute);
        let p = binary::quotient(f, a.parts(), w.parts());
        let q = binary::quotient(f, b.parts(), w.parts());
        binary::lemma_order(f, w.parts().pattern, 0);
        binary::lemma_rounded(
            f,
            false,
            a.parts().magnitude(f) * vstd::arithmetic::power2::pow2(f.unit as nat),
            w.parts().magnitude(f),
        );
        assert(p.pattern == q.pattern && p.pattern <= 0x7ff8_0000_0000_0000);
        assert(Binary64::of(p).parts() == p);
        assert(Binary64::of(q).parts() == q);
    }
}

/// A multiple of a sample is exact in double precision, up to half a billion
/// times.
proof fn lemma_multiple(c: Binary32, n: nat) -> (k: u64)
    requires
        c.finite(),
        n < 0x2000_0000,
    ensures
        k < crate::binary64::format().top,
        crate::rounding::mag(crate::binary64::format().h(), k as nat) == n * c.parts().magnitude(
            crate::binary32::format(),
        ) * pow2(925),
{
    let h = crate::binary32::format().h();
    let g = crate::binary64::format().h();
    crate::binary32::lemma_format();
    crate::binary64::lemma_format();
    let p = c.parts().pattern as nat;
    crate::rounding::lemma_parts(h, p);
    let t = crate::rounding::place(h, p);
    let sig = (p - t * h) as nat;
    assert(t <= 253);
    let m = n * sig;
    assert(m < 0x20_0000_0000_0000) by (nonlinear_arith)
        requires
            m == n * sig,
            n <= 0x1fff_ffff,
            sig <= 0xff_ffff,
    ;
    assert(n * (sig * pow2(t)) * pow2(925) == m * (pow2(t) * pow2(925))) by (nonlinear_arith)
        requires
            m == n * sig,
    ;
    vstd::arithmetic::power2::lemma_pow2_adds(t, 925);
    if m == 0 {
        binary::lemma_order(crate::binary64::format(), 0, 0);
        assert(m * pow2(t + 925) == 0) by (nonlinear_arith)
            requires
                m == 0,
        ;
        0
    } else {
        let k = crate::rounding::lemma_scaled(g, m, t + 925);
        assert((t + 925 + 2) * g <= 1180 * g) by (nonlinear_arith)
            requires
                t <= 253,
                g >= 0,
        ;
        k as u64
    }
}

/// Widening a sample is exact.
proof fn lemma_widened(x: Binary32)
    requires
        x.finite(),
    ensures
        Binary64::widened(x).finite(),
        Binary64::widened(x).units() == x.units() * pow2(925),
{
    let f = crate::binary32::format();
    let g = crate::binary64::format();
    crate::binary32::lemma_format();
    crate::binary64::lemma_format();
    reveal(Binary64::widened);
    let k = lemma_multiple(x, 1);
    let m = x.parts().magnitude(f);
    assert(1 * m * pow2(925) == m * pow2(925));
    crate::rounding::lemma_representable(g.h(), g.inf(), k as nat, 1);
    let p = binary::converted(f, g, x.parts());
    assert(p == binary::rounded(g, x.parts().negative, m * pow2(925), 1));
    assert(p.pattern == k);
    assert(Binary64::of(p).parts() == p);
    assert(-(m * pow2(925)) == (-m) * pow2(925)) by (nonlinear_arith);
}

/// A sum that does not pass a number does not pass it when it is rounded.
proof fn lemma_sum_within(f: binary::Format, a: binary::Parts, b: binary::Parts, k: u64)
    requires
        f.valid(),
        a.finite(f),
        b.finite(f),
        k < f.top,
        -crate::rounding::mag(f.h(), k as nat) <= a.units(f) + b.units(f)
            <= crate::rounding::mag(f.h(), k as nat),
    ensures
        binary::sum(f, a, b).finite(f),
        -crate::rounding::mag(f.h(), k as nat) <= binary::sum(f, a, b).units(f)
            <= crate::rounding::mag(f.h(), k as nat),
{
    let s = a.units(f) + b.units(f);
    let n = if s < 0 {
        (-s) as nat
    } else {
        s as nat
    };
    let r = binary::sum(f, a, b);
    vstd::arithmetic::power2::lemma_pow2_pos((f.digits - 1) as nat);
    binary::lemma_rounded(f, s < 0, n, 1);
    crate::rounding::lemma_nearest_bound(f.h(), f.inf(), n, 1, k as nat);
    binary::lemma_order(f, r.pattern, k);
    binary::lemma_order(f, k, r.pattern);
    binary::lemma_order(f, 0, 0);
}

proof fn lemma_total_bounds(s: Seq<Binary32>, n: nat, c: Binary32, top: Binary32)
    requires
        n <= s.len(),
        n < 0x2000_0000,
        c.finite() && top.finite(),
        0 <= c.units() && 0 <= top.units(),
        forall|i: int| 0 <= i < n ==> (#[trigger] s[i]).finite(),
        forall|i: int| 0 <= i < n ==> -top.units() <= (#[trigger] s[i]).units() <= top.units(),
    ensures
        total(s, n).finite(),
        -(n * top.units() * pow2(925)) <= total(s, n).units() <= n * top.units() * pow2(925),
        (forall|i: int| 0 <= i < n ==> (#[trigger] s[i]).units() >= c.units()) ==> total(
            s,
            n,
        ).units() >= n * c.units() * pow2(925),
    decreases n,
{
    let f = crate::binary64::format();
    crate::binary64::lemma_format();
    crate::binary32::lemma_format();
    let p = pow2(925);
    vstd::arithmetic::power2::lemma_pow2_pos(925);
    binary::lemma_order(f, 0, 0);
    if n == 0 {
        assert(0 * top.units() * p == 0 && 0 * c.units() * p == 0) by (nonlinear_arith);
        assert(total(s, 0).units() == 0);
    } else {
        let m = (n - 1) as nat;
        lemma_total_bounds(s, m, c, top);
        let x = s[n - 1];
        lemma_widened(x);
        let a = total(s, m);
        let b = Binary64::widened(x);
        let t = top.units();
        let u = c.units();
        let k = lemma_multiple(top, n);
        let j = lemma_multiple(c, n);
        assert(top.parts().magnitude(crate::binary32::format()) == t);
        assert(c.parts().magnitude(crate::binary32::format()) == u);
        assert(n * t * p == m * t * p + t * p) by (nonlinear_arith)
            requires
                n == m + 1,
        ;
        assert(n * u * p == m * u * p + u * p) by (nonlinear_arith)
            requires
                n == m + 1,
        ;
        assert(-(t * p) <= x.units() * p <= t * p) by (nonlinear_arith)
            requires
                -t <= x.units() <= t,
                p > 0,
        ;
        lemma_sum_within(f, a.parts(), b.parts(), k);
        let r = binary::sum(f, a.parts(), b.parts());
        reveal(Binary64::sum);
        assert(Binary64::of(r).parts() == r);
        if forall|i: int| 0 <= i < n ==> (#[trigger] s[i]).units() >= u {
            assert(s[n - 1].units() >= u);
            assert(x.units() * p >= u * p) by (nonlinear_arith)
                requires
                    x.units() >= u,
                    p > 0,
            ;
            binary::lemma_sum_bound(f, a.parts(), b.parts(), j);
        }
    }
}

/// How far a recording is off centre follows the signal: one that stays above
/// `c` throughout is off by at least `c`, and one that stays within `c` on both
/// sides is off by at most `c`.
pub proof fn law_offset_follows_the_signal(s: Seq<Binary32>, c: Binary32)
    requires
        0 < s.len() < 0x2000_0000,
        c.finite(),
        0 <= c.units(),
        !c.parts().negative,
        forall|i: int| 0 <= i < s.len() ==> (#[trigger] s[i]).finite(),
    ensures
        (forall|i: int| 0 <= i < s.len() ==> c.le(#[trigger] s[i])) ==> c.le(offset(s)),
        (forall|i: int| 0 <= i < s.len() ==> (#[trigger] s[i]).absolute().le(c)) ==> offset(s).le(
            c,
        ),
{
    let n = s.len();
    let f = crate::binary32::format();
    let g = crate::binary64::format();
    crate::binary32::lemma_format();
    crate::binary64::lemma_format();
    reveal(Binary32::le);
    let most = Binary32 { bits: 0x7f7f_ffff };
    let inside = forall|i: int| 0 <= i < s.len() ==> (#[trigger] s[i]).absolute().le(c);
    let bound = if inside {
        c
    } else {
        most
    };
    assert(most.units() >= 0) by {
        binary::lemma_order(f, most.parts().pattern, 0);
    }
    assert forall|i: int| 0 <= i < n implies -bound.units() <= (#[trigger] s[i]).units()
        <= bound.units() by {
        let x = s[i];
        reveal(Binary32::absolute);
        assert(x.absolute().parts() == binary::Parts {
            negative: false,
            pattern: x.parts().pattern,
        });
        if inside {
            assert(s[i].absolute().le(c));
        } else {
            binary::lemma_order(f, x.parts().pattern, most.parts().pattern);
            binary::lemma_order(f, most.parts().pattern, x.parts().pattern);
        }
    }
    lemma_total_bounds(s, n, c, bound);
    let a = total(s, n);
    let w = Binary64::whole(n);
    crate::binary64::lemma_whole(n);
    crate::binary64::lemma_count(n);
    let p = pow2(925);
    let u = pow2(1074);
    vstd::arithmetic::power2::lemma_pow2_pos(925);
    vstd::arithmetic::power2::lemma_pow2_pos(1074);
    let q = a.quotient(w);
    let t = a.parts().magnitude(g);
    let d = w.parts().magnitude(g);
    binary::lemma_order(g, w.parts().pattern, 0);
    assert(d == n * u);
    let kc = lemma_multiple(c, 1);
    let mc = c.units() as nat;
    assert(c.parts().magnitude(f) == mc);
    assert(1 * mc * p == mc * p);
    binary::lemma_rounded(g, a.parts().negative, t * u, d);
    let r = binary::quotient(g, a.parts(), w.parts());
    assert(q.parts() == r) by {
        reveal(Binary64::quotient);
        assert(Binary64::of(r).parts() == r);
    }
    crate::rounding::lemma_nearest_bound(g.h(), g.inf(), t * u, d, kc as nat);
    let above = forall|i: int| 0 <= i < s.len() ==> c.le(#[trigger] s[i]);
    if above {
        assert forall|i: int| 0 <= i < n implies (#[trigger] s[i]).units() >= c.units() by {
            assert(c.le(s[i]));
        }
        assert(t >= n * mc * p);
        assert(t * u >= (mc * p) * d) by (nonlinear_arith)
            requires
                t >= n * mc * p,
                d == n * u,
                u > 0,
        ;
        assert(r.pattern >= kc);
    }
    if inside {
        assert(t <= n * mc * p);
        assert(t * u <= (mc * p) * d) by (nonlinear_arith)
            requires
                t <= n * mc * p,
                d == n * u,
                u > 0,
        ;
        assert(r.pattern <= kc);
    }
    let v = q.absolute();
    assert(v.parts() == binary::Parts { negative: false, pattern: r.pattern }) by {
        reveal(Binary64::absolute);
    }
    let o = v.narrowed();
    reveal(Binary64::narrowed);
    let z = binary::converted(g, f, v.parts());
    binary::lemma_order(g, r.pattern, kc);
    binary::lemma_order(g, kc, r.pattern);
    binary::lemma_order(f, 0, 0);
    if r.pattern < g.top {
        let m = v.parts().magnitude(g);
        assert(z == binary::rounded(f, false, m * 1, p));
        binary::lemma_rounded(f, false, m * 1, p);
        crate::rounding::lemma_nearest_bound(f.h(), f.inf(), m, p, c.parts().pattern as nat);
    }
    assert(z.pattern <= f.top);
    assert(Binary32::of(z).parts() == z);
    binary::lemma_order(f, z.pattern, c.parts().pattern);
    binary::lemma_order(f, c.parts().pattern, z.pattern);
}

/// A recording is broken where it is empty or holds anything but finite
/// samples, infinite ones included.
pub proof fn law_only_finite_recordings_are_judged(s: Seq<Binary32>, i: int)
    requires
        0 <= i < s.len(),
    ensures
        s[i].parts().pattern >= 0x7f80_0000 ==> broken(s),
        !broken(s) ==> s[i].parts().pattern < 0x7f80_0000,
        broken(Seq::empty()),
{
    crate::binary32::lemma_format();
    assert(s[i].finite() <==> s[i].parts().pattern < 0x7f80_0000);
}

/// What is quoted of a refused recording is what was measured, in percent.
pub proof fn law_figures_are_percentages(s: Seq<Binary32>, rate: u32, dbfs: Binary32)
    ensures
        judgement(s, rate, dbfs) matches Some(CaptureFault::Clipped { percent }) ==> percent
            == clipped_share(s).product(Binary32 { bits: 0x42c8_0000 }),
        judgement(s, rate, dbfs) matches Some(CaptureFault::TooLittleSpeech { percent }) ==> percent
            == active_share(s, rate).product(Binary32 { bits: 0x42c8_0000 }),
        judgement(s, rate, dbfs) matches Some(CaptureFault::TooQuiet { rms_dbfs }) ==> rms_dbfs
            == dbfs,
{
}

/// The level that is converted to decibels is the recording's own, unless that
/// is below a billionth, and never lower than that.
pub proof fn law_levels_have_a_floor(s: Seq<Binary32>)
    ensures
        ({
            let floor = Binary32 { bits: 0x3089_705f };
            &&& floor.le(level_to_convert(s))
            &&& floor.le(precise_level(s)) ==> level_to_convert(s) == precise_level(s)
        }),
{
    let floor = Binary32 { bits: 0x3089_705f };
    let x = precise_level(s);
    crate::binary32::lemma_format();
    assert(!floor.nan());
    crate::binary32::lemma_total(floor, floor, floor);
    if x.nan() {
        reveal(Binary32::le);
    } else {
        crate::binary32::lemma_total(x, floor, floor);
    }
}

/// Half a frame is enough to be judged, and less than half is not.
pub proof fn law_half_frames_are_judged(f: Seq<Binary32>, len: nat)
    ensures
        len <= 2 * f.len() ==> judged(f, len),
        2 * f.len() + 1 < len ==> !judged(f, len),
{
}

/// A small whole number of a power of two is exact in double precision.
proof fn lemma_counted_power(n: nat, t: nat) -> (k: u64)
    requires
        n < 0x2000_0000,
        t <= 1400,
    ensures
        k < crate::binary64::format().top,
        crate::rounding::mag(crate::binary64::format().h(), k as nat) == n * pow2(t),
{
    let h = crate::binary64::format().h();
    crate::binary64::lemma_format();
    if n == 0 {
        binary::lemma_order(crate::binary64::format(), 0, 0);
        assert(n * pow2(t) == 0) by (nonlinear_arith)
            requires
                n == 0,
        ;
        0
    } else {
        let k = crate::rounding::lemma_scaled(h, n, t);
        assert((t + 2) * h <= 1402 * h) by (nonlinear_arith)
            requires
                t <= 1400,
                h >= 0,
        ;
        k as u64
    }
}

/// How the square of a number compares with that of a power of two, in double
/// precision.
proof fn lemma_square_bound(x: Binary64, t: nat)
    requires
        x.finite(),
        540 <= t <= 1202,
    ensures
        ({
            let m = x.parts().magnitude(crate::binary64::format());
            let y = x.product(x);
            &&& m <= pow2(t) ==> y.finite() && 0 <= y.units() <= pow2((2 * t - 1074) as nat)
            &&& m >= pow2(t) && y.finite() ==> y.units() >= pow2((2 * t - 1074) as nat)
        }),
{
    let f = crate::binary64::format();
    crate::binary64::lemma_format();
    let u = pow2(1074);
    vstd::arithmetic::power2::lemma_pow2_pos(1074);
    let m = x.parts().magnitude(f);
    let q = pow2(t);
    let e = (2 * t - 1074) as nat;
    let k = lemma_counted_power(1, e);
    let z = pow2(e);
    assert(1 * z == z);
    vstd::arithmetic::power2::lemma_pow2_adds(t, t);
    vstd::arithmetic::power2::lemma_pow2_adds(e, 1074);
    assert(q * q == z * u);
    binary::lemma_rounded(f, false, m * m, u);
    crate::rounding::lemma_nearest_bound(f.h(), f.inf(), m * m, u, k as nat);
    let p = binary::product(f, x.parts(), x.parts());
    assert(x.product(x).parts() == p) by {
        reveal(Binary64::product);
        assert(Binary64::of(p).parts() == p);
    }
    binary::lemma_order(f, p.pattern, k);
    binary::lemma_order(f, k, p.pattern);
    if m <= q {
        assert(m * m <= q * q) by (nonlinear_arith)
            requires
                0 <= m <= q,
        ;
    }
    if m >= q {
        assert(m * m >= q * q) by (nonlinear_arith)
            requires
                0 <= q <= m,
        ;
    }
}

proof fn lemma_energy_bounds(s: Seq<Binary32>, n: nat, low: nat, high: nat)
    requires
        n <= s.len(),
        n < 0x2000_0000,
        540 <= low <= 1202 && 540 <= high <= 1202,
        forall|i: int| 0 <= i < n ==> (#[trigger] s[i]).finite(),
        forall|i: int|
            0 <= i < n ==> Binary64::widened(#[trigger] s[i]).parts().magnitude(
                crate::binary64::format(),
            ) <= pow2(high),
    ensures
        energy(s, n).finite(),
        0 <= energy(s, n).units() <= n * pow2((2 * high - 1074) as nat),
        (forall|i: int|
            0 <= i < n ==> Binary64::widened(#[trigger] s[i]).parts().magnitude(
                crate::binary64::format(),
            ) >= pow2(low)) ==> energy(s, n).units() >= n * pow2((2 * low - 1074) as nat),
    decreases n,
{
    let f = crate::binary64::format();
    crate::binary64::lemma_format();
    binary::lemma_order(f, 0, 0);
    let z = pow2((2 * high - 1074) as nat);
    let y = pow2((2 * low - 1074) as nat);
    if n == 0 {
        assert(0 * z == 0 && 0 * y == 0) by (nonlinear_arith);
        assert(energy(s, 0).units() == 0);
    } else {
        let m = (n - 1) as nat;
        lemma_energy_bounds(s, m, low, high);
        let x = Binary64::widened(s[n - 1]);
        lemma_widened(s[n - 1]);
        lemma_square_bound(x, high);
        lemma_square_bound(x, low);
        let a = energy(s, m);
        let b = x.product(x);
        let k = lemma_counted_power(n, (2 * high - 1074) as nat);
        let j = lemma_counted_power(n, (2 * low - 1074) as nat);
        assert(n * z == m * z + z) by (nonlinear_arith)
            requires
                n == m + 1,
        ;
        assert(n * y == m * y + y) by (nonlinear_arith)
            requires
                n == m + 1,
        ;
        lemma_sum_within(f, a.parts(), b.parts(), k);
        binary::lemma_sum_bound(f, a.parts(), b.parts(), j);
        binary::lemma_sum_bound(f, a.parts(), b.parts(), 0);
        let r = binary::sum(f, a.parts(), b.parts());
        reveal(Binary64::sum);
        assert(Binary64::of(r).parts() == r);
        if forall|i: int|
            0 <= i < n ==> Binary64::widened(#[trigger] s[i]).parts().magnitude(f) >= pow2(low) {
            assert(Binary64::widened(s[n - 1]).parts().magnitude(f) >= pow2(low));
        }
    }
}

/// The level follows the signal, whatever its length: where every sample is at
/// least as far from zero as a power of two, the level is no less than that,
/// and where none is farther, it is no more.
#[verifier::rlimit(40)]
pub proof fn law_level_follows_the_signal(s: Seq<Binary32>, c: Binary32, e: nat)
    requires
        0 < s.len() < 0x2000_0000,
        forall|i: int| 0 <= i < s.len() ==> (#[trigger] s[i]).finite(),
        e <= 100,
        c.bits == (127 - e) * 0x80_0000,
    ensures
        (forall|i: int| 0 <= i < s.len() ==> c.le((#[trigger] s[i]).absolute())) ==> c.le(
            precise_level(s),
        ),
        (forall|i: int| 0 <= i < s.len() ==> (#[trigger] s[i]).absolute().le(c))
            ==> precise_level(s).le(c),
{
    let n = s.len();
    let f = crate::binary32::format();
    let g = crate::binary64::format();
    crate::binary32::lemma_format();
    crate::binary64::lemma_format();
    reveal(Binary32::le);
    let low = (1074 - e) as nat;
    let t = (149 - e) as nat;
    let p = pow2(925);
    vstd::arithmetic::power2::lemma_pow2_pos(925);
    assert(c.units() == pow2(t) && c.parts().pattern == (127 - e) * 0x80_0000) by {
        let h = 0x80_0000nat;
        crate::rounding::lemma_mag_parts(h, (126 - e) as nat, h);
        assert((126 - e) * h + h == (127 - e) * 0x80_0000);
        vstd::arithmetic::power2::lemma2_to64();
        vstd::arithmetic::power2::lemma_pow2_adds(23, (126 - e) as nat);
    }
    vstd::arithmetic::power2::lemma_pow2_adds(t, 925);
    assert(pow2(t) * p == pow2(low));
    let inside = forall|i: int| 0 <= i < s.len() ==> (#[trigger] s[i]).absolute().le(c);
    let above = forall|i: int| 0 <= i < s.len() ==> c.le((#[trigger] s[i]).absolute());
    let high = if inside {
        low
    } else {
        1202nat
    };
    assert forall|i: int| 0 <= i < n implies {
        let m = Binary64::widened(#[trigger] s[i]).parts().magnitude(g);
        m <= pow2(high) && (above ==> m >= pow2(low))
    } by {
        let x = s[i];
        lemma_widened(x);
        reveal(Binary32::absolute);
        assert(x.absolute().parts() == binary::Parts {
            negative: false,
            pattern: x.parts().pattern,
        });
        let u = x.parts().magnitude(f);
        let m = Binary64::widened(x).parts().magnitude(g);
        assert(-(u * p) == (-u) * p) by (nonlinear_arith);
        assert(m == u * p);
        if inside {
            assert(s[i].absolute().le(c));
            assert(u * p <= pow2(t) * p) by (nonlinear_arith)
                requires
                    u <= pow2(t),
                    p > 0,
            ;
        } else {
            let h = 0x80_0000nat;
            crate::rounding::lemma_mag_parts(h, 254, h);
            vstd::arithmetic::power2::lemma2_to64();
            vstd::arithmetic::power2::lemma_pow2_adds(23, 254);
            vstd::arithmetic::power2::lemma_pow2_adds(277, 925);
            assert(254 * h + h == 0x7f80_0000);
            binary::lemma_order(f, x.parts().pattern, 0x7f80_0000);
            assert(u * p <= pow2(277) * p) by (nonlinear_arith)
                requires
                    u <= pow2(277),
                    p > 0,
            ;
        }
        if above {
            assert(c.le(s[i].absolute()));
            assert(u * p >= pow2(t) * p) by (nonlinear_arith)
                requires
                    u >= pow2(t),
                    p > 0,
            ;
        }
    }
    lemma_energy_bounds(s, n, low, high);
    lemma_mean_root(energy(s, n), n, low, high, above);
    let v = energy(s, n).quotient(Binary64::whole(n)).root();
    let m = v.parts().magnitude(g);
    reveal(Binary64::narrowed);
    let z = binary::converted(g, f, v.parts());
    let negative = v.parts().negative;
    assert(z == binary::rounded(f, negative, m * 1, p));
    binary::lemma_rounded(f, negative, m * 1, p);
    crate::rounding::lemma_nearest_bound(f.h(), f.inf(), m, p, c.parts().pattern as nat);
    vstd::arithmetic::power2::lemma_pow2_pos(low);
    binary::lemma_order(g, 0, 0);
    binary::lemma_order(f, 0, 0);
    if negative {
        binary::lemma_zero(f, p);
    }
    assert(Binary32::of(z).parts() == z);
    binary::lemma_order(f, z.pattern, c.parts().pattern);
    binary::lemma_order(f, c.parts().pattern, z.pattern);
}

/// The root of a mean of squares is between what they are the squares of.
proof fn lemma_mean_root(a: Binary64, n: nat, low: nat, high: nat, above: bool)
    requires
        a.finite(),
        0 < n < 0x2000_0000,
        540 <= low <= 1202 && 540 <= high <= 1202,
        0 <= a.units() <= n * pow2((2 * high - 1074) as nat),
        above ==> a.units() >= n * pow2((2 * low - 1074) as nat),
    ensures
        ({
            let v = a.quotient(Binary64::whole(n)).root();
            let m = v.parts().magnitude(crate::binary64::format());
            &&& v.finite()
            &&& v.parts().negative ==> v.parts().pattern == 0
            &&& m <= pow2(high)
            &&& above ==> m >= pow2(low)
        }),
{
    let g = crate::binary64::format();
    crate::binary64::lemma_format();
    let u = pow2(1074);
    vstd::arithmetic::power2::lemma_pow2_pos(1074);
    let w = Binary64::whole(n);
    crate::binary64::lemma_whole(n);
    crate::binary64::lemma_count(n);
    binary::lemma_order(g, w.parts().pattern, 0);
    binary::lemma_order(g, 0, 0);
    let d = w.parts().magnitude(g);
    assert(d == n * u);
    let t = a.parts().magnitude(g);
    let z = pow2((2 * high - 1074) as nat);
    let y = pow2((2 * low - 1074) as nat);
    let kz = lemma_counted_power(1, (2 * high - 1074) as nat);
    let ky = lemma_counted_power(1, (2 * low - 1074) as nat);
    assert(1 * z == z && 1 * y == y);
    let q = a.quotient(w);
    let r = binary::quotient(g, a.parts(), w.parts());
    binary::lemma_rounded(g, a.parts().negative, t * u, d);
    assert(q.parts() == r) by {
        reveal(Binary64::quotient);
        assert(Binary64::of(r).parts() == r);
    }
    crate::rounding::lemma_nearest_bound(g.h(), g.inf(), t * u, d, kz as nat);
    crate::rounding::lemma_nearest_bound(g.h(), g.inf(), t * u, d, ky as nat);
    assert(t * u <= z * d) by (nonlinear_arith)
        requires
            t <= n * z,
            d == n * u,
            u > 0,
    ;
    if above {
        assert(t * u >= y * d) by (nonlinear_arith)
            requires
                t >= n * y,
                d == n * u,
                u > 0,
        ;
        vstd::arithmetic::power2::lemma_pow2_pos((2 * low - 1074) as nat);
        binary::lemma_order(g, ky, 0);
    }
    binary::lemma_order(g, r.pattern, kz);
    binary::lemma_order(g, kz, r.pattern);
    binary::lemma_order(g, r.pattern, ky);
    binary::lemma_order(g, ky, r.pattern);
    let jz = lemma_counted_power(1, high);
    let jy = lemma_counted_power(1, low);
    let bz = pow2(high);
    let by = pow2(low);
    assert(1 * bz == bz && 1 * by == by);
    vstd::arithmetic::power2::lemma_pow2_adds(high, high);
    vstd::arithmetic::power2::lemma_pow2_adds((2 * high - 1074) as nat, 1074);
    vstd::arithmetic::power2::lemma_pow2_adds(low, low);
    vstd::arithmetic::power2::lemma_pow2_adds((2 * low - 1074) as nat, 1074);
    assert(bz * bz == z * u && by * by == y * u);
    let x = r.magnitude(g);
    assert(x * u <= z * u) by (nonlinear_arith)
        requires
            x <= z,
            u > 0,
    ;
    if above {
        assert(x * u >= y * u) by (nonlinear_arith)
            requires
                x >= y,
                u > 0,
        ;
    }
    let v = q.root();
    let o = binary::root(g, r);
    if r.pattern > 0 {
        assert(!r.negative) by {
            binary::lemma_order(g, a.parts().pattern, 0);
            if a.parts().pattern == 0 {
                binary::lemma_zero(g, d);
                assert(t * u == 0) by (nonlinear_arith)
                    requires
                        t == 0,
                ;
            }
        }
        binary::lemma_root_bound(g, r, jz);
        binary::lemma_root_bound(g, r, jy);
    } else {
        vstd::arithmetic::power2::lemma_pow2_pos(high);
    }
    assert(v.parts() == o) by {
        reveal(Binary64::root);
        assert(Binary64::of(o).parts() == o);
    }
    binary::lemma_order(g, o.pattern, jz);
    binary::lemma_order(g, jz, o.pattern);
    binary::lemma_order(g, o.pattern, jy);
    binary::lemma_order(g, jy, o.pattern);
}

} // verus!
