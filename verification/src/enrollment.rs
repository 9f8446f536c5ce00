//! Speaker embedding pool: immutable enrollment anchors plus a single
//! residual-anchored embedding adapted from runtime audio.
//!
//! * `anchors` are written by explicit enrollment and never deleted. Their
//!   element-wise mean is the immutable reference.
//! * `evidence` is a running average of admitted runtime embeddings.
//! * `adapted` is `lambda * mean + (1 - lambda) * evidence`. The first term is
//!   a permanent pull toward enrollment, so the adapted embedding can follow
//!   the acoustic condition without drifting away from the enrolled identity.
//!
//! Runtime scoring compares against the anchors averaged into a few acoustic
//! conditions ([`conditions`]), and against the adapted embedding.

use crate::binary32::Binary32;
use crate::gating::cos_similarity;
use crate::gating::cosine;
use crate::gating::similarities;
use crate::text;
use crate::vectors;
use crate::vectors::elementwise_mean;
use vstd::prelude::*;

verus! {

/// Persistence-schema version. Version 1 payloads are still accepted on load
/// and migrated; any other value is rejected.
pub const PERSISTENCE_VERSION: u32 = 2;

/// Upper bound on how many distinct acoustic conditions an enrollment profile
/// is modelled as holding.
pub const MAX_CONDITION_GROUPS: usize = 4;

/// Target anchors per condition group. Averaging this many windows is what
/// cancels the noise that makes a single anchor an easy target for an
/// unrelated speaker.
pub const MIN_ANCHORS_PER_GROUP: usize = 4;

/// Two groups are the same acoustic condition only if their means are at
/// least this similar: the bits of `0.70`.
pub const CONDITION_MERGE_COS: u32 = 0x3f33_3333;

/// Drift-safety and adaptation knobs consumed by [`EmbeddingPool`].
#[derive(Debug, Clone, Copy)]
pub struct EmbeddingPoolConfig {
    /// Maximum `1 - max_cos(anchors)` allowed for a candidate to be admitted
    /// into the adapted embedding.
    pub anchor_distance_threshold: Binary32,
    /// Residual pull toward the enrollment centroid. `0.0` lets the adapted
    /// embedding follow runtime evidence freely; `1.0` pins it to the
    /// enrollment centroid.
    pub adapt_residual_lambda: Binary32,
    /// Step for folding a newly admitted candidate into the running evidence.
    pub adapt_rate: Binary32,
    /// Whether [`EmbeddingPool::bootstrap_seed`] may install the very first
    /// anchor from a runtime embedding.
    pub allow_bootstrap_from_runtime: bool,
}

impl EmbeddingPoolConfig {
    /// Distance 0.4, residual 0.1, rate 0.3, no bootstrap.
    pub open spec fn standard() -> EmbeddingPoolConfig {
        EmbeddingPoolConfig {
            anchor_distance_threshold: Binary32 { bits: 0x3ecc_cccd },
            adapt_residual_lambda: Binary32 { bits: 0x3dcc_cccd },
            adapt_rate: Binary32 { bits: 0x3e99_999a },
            allow_bootstrap_from_runtime: false,
        }
    }
}

impl Default for EmbeddingPoolConfig {
    fn default() -> (r: Self)
        ensures
            r == EmbeddingPoolConfig::standard(),
    {
        EmbeddingPoolConfig {
            anchor_distance_threshold: Binary32 { bits: 0x3ecc_cccd },
            adapt_residual_lambda: Binary32 { bits: 0x3dcc_cccd },
            adapt_rate: Binary32 { bits: 0x3e99_999a },
            allow_bootstrap_from_runtime: false,
        }
    }
}

/// F0 statistics captured from the explicit enrollment recording.
#[derive(Debug, Clone, Copy, PartialEq, Eq, Structural)]
pub struct EnrollmentMetadata {
    pub f0_mu: Binary32,
    pub f0_sigma: Binary32,
}

impl Default for EnrollmentMetadata {
    fn default() -> (r: Self)
        ensures
            r.f0_mu.bits == 0,
            r.f0_sigma.bits == 0,
    {
        EnrollmentMetadata { f0_mu: Binary32 { bits: 0 }, f0_sigma: Binary32 { bits: 0 } }
    }
}

/// How similar two groups are.
pub open spec fn closeness(means: Seq<Seq<Binary32>>, i: int, j: int) -> Binary32 {
    cosine(means[i], means[j])
}

/// `(i, j)` is the closest pair; of several, the first.
pub open spec fn is_closest(means: Seq<Seq<Binary32>>, i: int, j: int) -> bool {
    &&& 0 <= i < j < means.len()
    &&& vectors::lowest().lt(closeness(means, i, j))
    &&& forall|a: int, b: int|
        0 <= a < b < means.len() ==> {
            let s = #[trigger] closeness(means, a, b);
            &&& !closeness(means, i, j).lt(s)
            &&& a < i || (a == i && b < j) ==> !closeness(means, i, j).le(s)
        }
}

/// The closest pair of groups; the first two where no similarity is a number.
pub open spec fn closest_pair(means: Seq<Seq<Binary32>>) -> (int, int) {
    if exists|i: int, j: int| is_closest(means, i, j) {
        choose|i: int, j: int| is_closest(means, i, j)
    } else {
        (0, 1)
    }
}

/// The closest pair of groups is at least as similar as one acoustic
/// condition is to itself.
pub open spec fn same_condition(means: Seq<Seq<Binary32>>) -> bool {
    let (i, j) = closest_pair(means);
    is_closest(means, i, j) && !closeness(means, i, j).lt(Binary32 { bits: CONDITION_MERGE_COS })
}

/// The mean of each group.
pub open spec fn representatives(groups: Seq<Seq<Seq<Binary32>>>) -> Seq<Seq<Binary32>> {
    Seq::new(groups.len(), |i: int| vectors::mean(groups[i]))
}

/// Groups with `j` moved into `i`.
pub open spec fn merged(groups: Seq<Seq<Seq<Binary32>>>, i: int, j: int) -> Seq<
    Seq<Seq<Binary32>>,
> {
    groups.update(i, groups[i] + groups[j]).remove(j)
}

/// How many groups the anchors are asked to collapse into.
pub open spec fn budget(n: nat) -> nat {
    if n / 4 < 1 {
        1
    } else if n / 4 > 4 {
        4
    } else {
        n / 4
    }
}

/// The closest pair merged again and again: down to the budget, but within
/// the hard cap only while the pair is one acoustic condition.
pub open spec fn settled(groups: Seq<Seq<Seq<Binary32>>>, budget: nat) -> Seq<Seq<Seq<Binary32>>>
    decreases groups.len(),
{
    let means = representatives(groups);
    let (i, j) = closest_pair(means);
    if groups.len() <= budget || groups.len() < 2 || !(0 <= i < j < groups.len()) {
        groups
    } else if !same_condition(means) && groups.len() <= MAX_CONDITION_GROUPS {
        groups
    } else {
        settled(merged(groups, i, j), budget)
    }
}

/// One group for each anchor.
pub open spec fn singletons(anchors: Seq<Seq<Binary32>>) -> Seq<Seq<Seq<Binary32>>> {
    Seq::new(anchors.len(), |i: int| seq![anchors[i]])
}

/// The groups of anchors that belong to one acoustic condition each.
pub open spec fn grouping(anchors: Seq<Seq<Binary32>>) -> Seq<Seq<Seq<Binary32>>> {
    settled(singletons(anchors), budget(anchors.len()))
}

/// One mean for each acoustic condition among the anchors.
pub open spec fn conditions(anchors: Seq<Seq<Binary32>>) -> Seq<Seq<Binary32>> {
    representatives(grouping(anchors))
}

proof fn lemma_closest_unique(means: Seq<Seq<Binary32>>, i: int, j: int)
    requires
        is_closest(means, i, j),
    ensures
        closest_pair(means) == (i, j),
{
    let (a, b) = closest_pair(means);
    assert(is_closest(means, a, b));
    let s = closeness(means, i, j);
    let t = closeness(means, a, b);
    assert(!s.nan() && !t.nan()) by {
        reveal(Binary32::lt);
    }
    crate::binary32::lemma_total(s, t, t);
    crate::binary32::lemma_total(t, s, s);
}

/// The closest pair of groups and whether they are one acoustic condition.
fn find_closest(means: &Vec<Vec<Binary32>>) -> (r: (usize, usize, bool))
    requires
        means@.len() >= 2,
    ensures
        (r.0 as int, r.1 as int) == closest_pair(vectors::rows(means@)),
        r.0 < r.1 < means@.len(),
        r.2 == same_condition(vectors::rows(means@)),
{
    let n: usize = means.len();
    let ghost m = vectors::rows(means@);
    let mut first: usize = 0;
    let mut second: usize = 1;
    let mut best: Binary32 = Binary32 { bits: vectors::NEGATIVE_INFINITY };
    let mut found: bool = false;
    let mut i: usize = 0;
    while i < n
        invariant
            n == means.len(),
            n >= 2,
            i <= n,
            m == vectors::rows(means@),
            search(m, i as int, 0, found, first as int, second as int, best),
        decreases n - i,
    {
        let mut j: usize = i + 1;
        proof {
            lemma_search_row(m, i as int, found, first as int, second as int, best);
        }
        while j < n
            invariant
                n == means.len(),
                n >= 2,
                i < n,
                i < j <= n,
                m == vectors::rows(means@),
                search(m, i as int, j as int, found, first as int, second as int, best),
            decreases n - j,
        {
            let s: Binary32 = cos_similarity(means[i].as_slice(), means[j].as_slice());
            proof {
                assert(s == closeness(m, i as int, j as int));
                lemma_search_step(m, i as int, j as int, found, first as int, second as int, best);
            }
            if best.less(s) {
                first = i;
                second = j;
                best = s;
                found = true;
            }
            j = j + 1;
        }
        i = i + 1;
        proof {
            lemma_search_next(m, i as int, found, first as int, second as int, best);
        }
    }
    proof {
        lemma_search_done(m, found, first as int, second as int, best);
    }
    let same: bool = found && !best.less(Binary32 { bits: CONDITION_MERGE_COS });
    (first, second, same)
}

/// State of the search for the closest pair once the pairs before `(i, j)`
/// have been looked at.
spec fn search(
    m: Seq<Seq<Binary32>>,
    i: int,
    j: int,
    found: bool,
    first: int,
    second: int,
    best: Binary32,
) -> bool {
    &&& !best.nan()
    &&& found ==> 0 <= first < second < m.len() && best == closeness(m, first, second)
        && vectors::lowest().lt(best) && (first < i || (first == i && second < j))
    &&& !found ==> first == 0 && second == 1 && best == vectors::lowest()
    &&& forall|a: int, b: int|
        0 <= a < b < m.len() && (a < i || (a == i && b < j)) ==> {
            let s = #[trigger] closeness(m, a, b);
            &&& !best.lt(s)
            &&& found && (a < first || (a == first && b < second)) ==> !best.le(s)
        }
}

proof fn lemma_search_row(
    m: Seq<Seq<Binary32>>,
    i: int,
    found: bool,
    first: int,
    second: int,
    best: Binary32,
)
    requires
        search(m, i, 0, found, first, second, best),
    ensures
        search(m, i, i + 1, found, first, second, best),
{
}

proof fn lemma_search_next(
    m: Seq<Seq<Binary32>>,
    i: int,
    found: bool,
    first: int,
    second: int,
    best: Binary32,
)
    requires
        search(m, i - 1, m.len() as int, found, first, second, best),
        i <= m.len(),
    ensures
        search(m, i, 0, found, first, second, best),
{
}

proof fn lemma_search_step(
    m: Seq<Seq<Binary32>>,
    i: int,
    j: int,
    found: bool,
    first: int,
    second: int,
    best: Binary32,
)
    requires
        search(m, i, j, found, first, second, best),
        0 <= i < j < m.len(),
    ensures
        ({
            let s = closeness(m, i, j);
            if best.lt(s) {
                search(m, i, j + 1, true, i, j, s)
            } else {
                search(m, i, j + 1, found, first, second, best)
            }
        }),
{
    let s = closeness(m, i, j);
    if best.lt(s) {
        assert(!s.nan()) by {
            reveal(Binary32::lt);
        }
        crate::binary32::lemma_total(best, s, s);
        crate::binary32::lemma_total(s, s, s);
        assert(!vectors::lowest().nan());
        crate::binary32::lemma_total(vectors::lowest(), best, s);
        if !found {
            crate::binary32::lemma_total(best, best, s);
        }
        assert forall|a: int, b: int|
            0 <= a < b < m.len() && (a < i || (a == i && b < j + 1)) implies {
            let t = #[trigger] closeness(m, a, b);
            &&& !s.lt(t)
            &&& a < i || (a == i && b < j) ==> !s.le(t)
        } by {
            let t = closeness(m, a, b);
            if a < i || (a == i && b < j) {
                assert(!best.lt(t));
                if t.nan() {
                    reveal(Binary32::lt);
                    reveal(Binary32::le);
                } else {
                    crate::binary32::lemma_total(best, t, s);
                    crate::binary32::lemma_total(t, best, s);
                    crate::binary32::lemma_total(s, t, t);
                    crate::binary32::lemma_total(t, s, s);
                }
            } else {
                assert(a == i && b == j);
            }
        }
    }
}

proof fn lemma_search_done(
    m: Seq<Seq<Binary32>>,
    found: bool,
    first: int,
    second: int,
    best: Binary32,
)
    requires
        m.len() >= 2,
        search(m, m.len() as int, 0, found, first, second, best),
    ensures
        closest_pair(m) == (first, second),
        0 <= first < second < m.len(),
        found == is_closest(m, first, second),
{
    if found {
        assert(is_closest(m, first, second)) by {
            assert forall|a: int, b: int| 0 <= a < b < m.len() implies {
                let s = #[trigger] closeness(m, a, b);
                &&& !closeness(m, first, second).lt(s)
                &&& a < first || (a == first && b < second) ==> !closeness(m, first, second).le(s)
            } by {
                assert(a < m.len());
            }
        }
        lemma_closest_unique(m, first, second);
    } else {
        assert forall|i: int, j: int| !is_closest(m, i, j) by {
            if 0 <= i < j < m.len() {
                let s = closeness(m, i, j);
                assert(!best.lt(s));
            }
        }
    }
}

/// The groups behind their tables.
spec fn tables(groups: Seq<Vec<Vec<Binary32>>>) -> Seq<Seq<Seq<Binary32>>> {
    Seq::new(groups.len(), |i: int| vectors::rows(groups[i]@))
}

/// Group `anchors` into acoustic conditions and return one mean vector per
/// group.
///
/// Agglomerative: start with one group per anchor and repeatedly merge the
/// closest pair, subject to two stopping rules. The budget forces the windows
/// of one recording to collapse into a few averaged means, which removes the
/// lottery that an impostor otherwise wins on one noisy window.
/// [`CONDITION_MERGE_COS`] stops the budget from averaging a genuinely
/// separate registration into another one, and is waived only while more than
/// [`MAX_CONDITION_GROUPS`] groups remain.
pub fn condition_groups(anchors: &[Vec<Binary32>]) -> (r: Vec<Vec<Binary32>>)
    ensures
        vectors::rows(r@) == conditions(vectors::rows(anchors@)),
        r@.len() <= MAX_CONDITION_GROUPS,
        r@.len() == 0 <==> anchors@.len() == 0,
{
    let ghost a = vectors::rows(anchors@);
    proof {
        law_conditions_capped(a);
    }
    let n: usize = anchors.len();
    if n == 0 {
        let r: Vec<Vec<Binary32>> = Vec::new();
        assert(vectors::rows(r@) =~= conditions(a));
        return r;
    }
    let share: usize = n / MIN_ANCHORS_PER_GROUP;
    let limit: usize = if share < 1 {
        1
    } else if share > MAX_CONDITION_GROUPS {
        MAX_CONDITION_GROUPS
    } else {
        share
    };
    let mut groups: Vec<Vec<Vec<Binary32>>> = Vec::new();
    let mut k: usize = 0;
    while k < n
        invariant
            n == anchors.len(),
            k <= n,
            groups.len() == k,
            a == vectors::rows(anchors@),
            forall|i: int| 0 <= i < k ==> vectors::rows((#[trigger] groups@[i])@) == seq![a[i]],
        decreases n - k,
    {
        let mut single: Vec<Vec<Binary32>> = Vec::new();
        single.push(vectors::copy(anchors[k].as_slice()));
        assert(vectors::rows(single@) =~= seq![a[k as int]]);
        groups.push(single);
        k = k + 1;
    }
    let mut means: Vec<Vec<Binary32>> = vectors::copy_rows(anchors);
    assert(tables(groups@) =~= singletons(a));
    assert(vectors::rows(means@) =~= representatives(tables(groups@)));
    while groups.len() > limit
        invariant_except_break
            limit == budget(a.len()),
            1 <= limit <= MAX_CONDITION_GROUPS,
            settled(tables(groups@), limit as nat) == grouping(a),
            vectors::rows(means@) == representatives(tables(groups@)),
            means.len() == groups.len(),
            forall|i: int| 0 <= i < groups.len() ==> (#[trigger] groups@[i]).len() >= 1,
        ensures
            tables(groups@) == grouping(a),
            vectors::rows(means@) == representatives(tables(groups@)),
        decreases groups.len(),
    {
        let (i, j, same) = find_closest(&means);
        if !same && groups.len() <= MAX_CONDITION_GROUPS {
            break;
        }
        let ghost before = groups@;
        let ghost means_before = means@;
        let mut moved: Vec<Vec<Binary32>> = groups.remove(j);
        means.remove(j);
        let mut group: Vec<Vec<Binary32>> = groups.remove(i);
        group.append(&mut moved);
        let mean: Vec<Binary32> = match elementwise_mean(group.as_slice()) {
            Some(v) => v,
            None => Vec::new(),
        };
        proof {
            assert(vectors::rows(group@) =~= vectors::rows(before[i as int]@) + vectors::rows(
                before[j as int]@,
            ));
        }
        groups.insert(i, group);
        means.set(i, mean);
        proof {
            let g = tables(before);
            assert(tables(groups@) =~= merged(g, i as int, j as int));
            assert forall|k: int| 0 <= k < groups.len() implies (#[trigger] groups@[k]).len()
                >= 1 by {
                if k != i {
                    let from = if k < j { k } else { k + 1 };
                    assert(groups@[k] == before[from]);
                }
            }
            assert forall|k: int| 0 <= k < groups.len() implies #[trigger] vectors::rows(
                means@,
            )[k] == representatives(tables(groups@))[k] by {
                if k == i {
                    assert(tables(groups@)[k].len() >= 2);
                } else {
                    let from = if k < j { k } else { k + 1 };
                    assert(means@[k] == means_before[from]);
                    assert(vectors::rows(means_before)[from] == representatives(g)[from]);
                    assert(tables(groups@)[k] == g[from]);
                }
            }
            assert(vectors::rows(means@) =~= representatives(tables(groups@)));
        }
    }
    means
}

/// The closest pair is a pair.
proof fn lemma_pair(means: Seq<Seq<Binary32>>)
    requires
        means.len() >= 2,
    ensures
        0 <= closest_pair(means).0 < closest_pair(means).1 < means.len(),
{
}

proof fn lemma_settled_len(groups: Seq<Seq<Seq<Binary32>>>, budget: nat)
    requires
        1 <= budget <= MAX_CONDITION_GROUPS,
    ensures
        settled(groups, budget).len() <= MAX_CONDITION_GROUPS,
        groups.len() == 0 <==> settled(groups, budget).len() == 0,
    decreases groups.len(),
{
    let means = representatives(groups);
    if groups.len() > budget {
        lemma_pair(means);
        let (i, j) = closest_pair(means);
        if same_condition(means) || groups.len() > MAX_CONDITION_GROUPS {
            lemma_settled_len(merged(groups, i, j), budget);
        }
    }
}

/// However many anchors there are and however little they agree, they are
/// compared against as at most [`MAX_CONDITION_GROUPS`] conditions, and as at
/// least one where there is an anchor.
pub proof fn law_conditions_capped(anchors: Seq<Seq<Binary32>>)
    ensures
        conditions(anchors).len() <= MAX_CONDITION_GROUPS,
        conditions(anchors).len() == 0 <==> anchors.len() == 0,
{
    lemma_settled_len(singletons(anchors), budget(anchors.len()));
}

/// A single anchor is its own condition, verbatim.
pub proof fn law_single_anchor_verbatim(anchor: Seq<Binary32>)
    ensures
        conditions(seq![anchor]) == seq![anchor],
{
    let a = seq![anchor];
    assert(conditions(a) =~= a);
}

/// Up to four registrations of which no two are one acoustic condition stay
/// apart, each as it was recorded.
pub proof fn law_distinct_registrations_kept(anchors: Seq<Seq<Binary32>>)
    requires
        anchors.len() <= MAX_CONDITION_GROUPS,
        forall|i: int, j: int|
            0 <= i < j < anchors.len() ==> (#[trigger] closeness(anchors, i, j)).lt(
                Binary32 { bits: CONDITION_MERGE_COS },
            ),
    ensures
        conditions(anchors) == anchors,
{
    let groups = singletons(anchors);
    let means = representatives(groups);
    assert(means =~= anchors);
    if groups.len() >= 2 {
        lemma_pair(means);
        let (i, j) = closest_pair(means);
        assert(closeness(anchors, i, j).lt(Binary32 { bits: CONDITION_MERGE_COS }));
        assert(!same_condition(means));
    }
    assert(conditions(anchors) =~= anchors);
}

/// All anchors of some groups.
pub open spec fn gathered(groups: Seq<Seq<Seq<Binary32>>>) -> vstd::multiset::Multiset<
    Seq<Binary32>,
>
    decreases groups.len(),
{
    if groups.len() == 0 {
        vstd::multiset::Multiset::empty()
    } else {
        gathered(groups.drop_last()).add(groups.last().to_multiset())
    }
}

proof fn lemma_gathered_remove(groups: Seq<Seq<Seq<Binary32>>>, j: int)
    requires
        0 <= j < groups.len(),
    ensures
        gathered(groups) == gathered(groups.remove(j)).add(groups[j].to_multiset()),
    decreases groups.len(),
{
    if j == groups.len() - 1 {
        assert(groups.remove(j) =~= groups.drop_last());
    } else {
        lemma_gathered_remove(groups.drop_last(), j);
        assert(groups.remove(j).drop_last() =~= groups.drop_last().remove(j));
        assert(groups.remove(j).last() == groups.last());
        assert(gathered(groups) =~= gathered(groups.remove(j)).add(groups[j].to_multiset()));
    }
}

proof fn lemma_gathered_update(groups: Seq<Seq<Seq<Binary32>>>, i: int, g: Seq<Seq<Binary32>>)
    requires
        0 <= i < groups.len(),
    ensures
        gathered(groups.update(i, g)) == gathered(groups.remove(i)).add(g.to_multiset()),
{
    lemma_gathered_remove(groups.update(i, g), i);
    assert(groups.update(i, g).remove(i) =~= groups.remove(i));
}

proof fn lemma_settled_gathers(groups: Seq<Seq<Seq<Binary32>>>, budget: nat)
    ensures
        gathered(settled(groups, budget)) == gathered(groups),
    decreases groups.len(),
{
    let means = representatives(groups);
    let (i, j) = closest_pair(means);
    if groups.len() <= budget || groups.len() < 2 || !(0 <= i < j < groups.len()) {
    } else if !same_condition(means) && groups.len() <= MAX_CONDITION_GROUPS {
    } else {
        lemma_settled_gathers(merged(groups, i, j), budget);
        let g = groups[i] + groups[j];
        let u = groups.update(i, g);
        lemma_gathered_remove(u, j);
        lemma_gathered_update(groups, i, g);
        lemma_gathered_remove(groups, i);
        vstd::seq_lib::lemma_multiset_commutative(groups[i], groups[j]);
        assert(u[j] == groups[j]);
        let rest = groups.remove(i);
        lemma_gathered_remove(rest, j - 1);
        assert(rest[j - 1] == groups[j]);
        assert(u.remove(j).remove(i) =~= rest.remove(j - 1));
        lemma_gathered_remove(u.remove(j), i);
        assert(u.remove(j)[i] == g);
        assert(gathered(merged(groups, i, j)) =~= gathered(groups));
    }
}

proof fn lemma_singletons_gather(anchors: Seq<Seq<Binary32>>)
    ensures
        gathered(singletons(anchors)) == anchors.to_multiset(),
    decreases anchors.len(),
{
    broadcast use vstd::seq_lib::group_to_multiset_ensures;

    let s = singletons(anchors);
    if anchors.len() == 0 {
        assert(gathered(s) =~= anchors.to_multiset());
    } else {
        let head = anchors.drop_last();
        lemma_singletons_gather(head);
        assert(s.drop_last() =~= singletons(head));
        assert(s.last() =~= Seq::<Seq<Binary32>>::empty().push(anchors.last()));
        assert(anchors =~= head.push(anchors.last()));
        assert(gathered(s) =~= anchors.to_multiset());
    }
}

/// Grouping neither drops nor repeats an anchor: every one of them is averaged
/// into exactly one condition.
pub proof fn law_grouping_is_a_partition(anchors: Seq<Seq<Binary32>>)
    ensures
        gathered(grouping(anchors)) == anchors.to_multiset(),
{
    lemma_settled_gathers(singletons(anchors), budget(anchors.len()));
    lemma_singletons_gather(anchors);
}

/// What an [`EmbeddingPool`] holds.
#[verifier::ext_equal]
pub struct PoolModel {
    pub config: EmbeddingPoolConfig,
    pub anchors: Seq<Seq<Binary32>>,
    pub evidence: Option<Seq<Binary32>>,
    pub metadata: EnrollmentMetadata,
}

impl PoolModel {
    pub open spec fn empty(config: EmbeddingPoolConfig) -> PoolModel {
        PoolModel {
            config,
            anchors: Seq::empty(),
            evidence: None,
            metadata: EnrollmentMetadata {
                f0_mu: Binary32 { bits: 0 },
                f0_sigma: Binary32 { bits: 0 },
            },
        }
    }

    /// Mean of the anchors.
    pub open spec fn centroid(self) -> Option<Seq<Binary32>> {
        if self.anchors.len() == 0 {
            None
        } else {
            Some(vectors::mean(self.anchors))
        }
    }

    /// The evidence, pulled back toward the mean of the anchors.
    pub open spec fn adapted(self) -> Option<Seq<Binary32>> {
        match self.evidence {
            None => None,
            Some(e) => Some(
                match self.centroid() {
                    Some(c) => vectors::mix(
                        self.config.adapt_residual_lambda,
                        c,
                        vectors::one().difference(self.config.adapt_residual_lambda),
                        e,
                    ),
                    None => e,
                },
            ),
        }
    }

    /// The anchors, then the adapted embedding where there is one.
    pub open spec fn references(self) -> Seq<Seq<Binary32>> {
        match self.adapted() {
            Some(v) => self.anchors.push(v),
            None => self.anchors,
        }
    }

    /// What a runtime embedding is scored against: the acoustic conditions,
    /// then the adapted embedding where there is one.
    pub open spec fn targets(self) -> Seq<Seq<Binary32>> {
        match self.adapted() {
            Some(v) => conditions(self.anchors).push(v),
            None => conditions(self.anchors),
        }
    }

    /// The best similarity to a target, never below zero; zero where no
    /// similarity is finite.
    pub open spec fn score(self, emb: Seq<Binary32>) -> Binary32 {
        let best = vectors::greatest(
            vectors::lowest(),
            similarities(self.targets(), emb),
            self.targets().len(),
        );
        if best.finite() {
            best.larger(vectors::zero())
        } else {
            vectors::zero()
        }
    }

    /// Distance to the nearest anchor.
    pub open spec fn distance(self, emb: Seq<Binary32>) -> Option<Binary32> {
        if self.anchors.len() == 0 {
            None
        } else {
            Some(
                vectors::one().difference(
                    vectors::greatest(
                        vectors::lowest(),
                        similarities(self.anchors, emb),
                        self.anchors.len(),
                    ),
                ),
            )
        }
    }

    /// Whether a runtime embedding may become the first anchor.
    pub open spec fn takes_seed(self) -> bool {
        self.config.allow_bootstrap_from_runtime && self.references().len() == 0
    }

    /// The pool with its first anchor and pitch taken from runtime.
    pub open spec fn seeded(
        self,
        emb: Seq<Binary32>,
        f0_mu: Binary32,
        f0_sigma: Binary32,
    ) -> PoolModel {
        PoolModel {
            anchors: seq![emb],
            metadata: EnrollmentMetadata { f0_mu, f0_sigma },
            ..self
        }
    }

    /// Whether a candidate is near enough to an anchor to be learned from.
    pub open spec fn admits(self, emb: Seq<Binary32>) -> bool {
        self.distance(emb) matches Some(d) && d.le(self.config.anchor_distance_threshold)
    }

    /// The pool with a candidate folded into its evidence.
    pub open spec fn learned(self, emb: Seq<Binary32>) -> PoolModel {
        PoolModel {
            evidence: Some(
                match self.evidence {
                    None => emb,
                    Some(e) => folded(self.config.adapt_rate, e, emb),
                },
            ),
            ..self
        }
    }
}

/// `(1 - rate) * evidence + rate * candidate`; what the candidate is too short
/// for stays.
pub open spec fn folded(rate: Binary32, evidence: Seq<Binary32>, emb: Seq<Binary32>) -> Seq<
    Binary32,
> {
    Seq::new(
        evidence.len(),
        |i: int|
            if i < emb.len() {
                vectors::mixed(vectors::one().difference(rate), evidence[i], rate, emb[i])
            } else {
                evidence[i]
            },
    )
}

/// Speaker pool: immutable anchors and one adapted embedding.
#[derive(Debug)]
pub struct EmbeddingPool {
    config: EmbeddingPoolConfig,
    anchors: Vec<Vec<Binary32>>,
    /// Running average of admitted runtime embeddings.
    evidence: Option<Vec<Binary32>>,
    metadata: EnrollmentMetadata,
    /// Mean of `anchors`, kept in step with them.
    anchor_centroid: Option<Vec<Binary32>>,
    /// `anchors` averaged into acoustic conditions, kept in step with them.
    condition_centroids: Vec<Vec<Binary32>>,
    /// The adapted embedding, kept in step with the mean and the evidence.
    adapted: Option<Vec<Binary32>>,
}

impl View for EmbeddingPool {
    type V = PoolModel;

    closed spec fn view(&self) -> PoolModel {
        PoolModel {
            config: self.config,
            anchors: vectors::rows(self.anchors@),
            evidence: vectors::optional(self.evidence),
            metadata: self.metadata,
        }
    }
}

impl EmbeddingPool {
    /// The cached vectors are those of the anchors and the evidence.
    pub closed spec fn valid(self) -> bool {
        &&& vectors::optional(self.anchor_centroid) == self@.centroid()
        &&& vectors::rows(self.condition_centroids@) == conditions(self@.anchors)
        &&& vectors::optional(self.adapted) == self@.adapted()
    }

    pub fn new(config: EmbeddingPoolConfig) -> (r: Self)
        ensures
            r@ == PoolModel::empty(config),
            r.valid(),
    {
        let anchors: Vec<Vec<Binary32>> = Vec::new();
        let condition_centroids: Vec<Vec<Binary32>> = condition_groups(anchors.as_slice());
        let r: EmbeddingPool = EmbeddingPool {
            config,
            anchors,
            evidence: None,
            metadata: EnrollmentMetadata {
                f0_mu: Binary32 { bits: 0 },
                f0_sigma: Binary32 { bits: 0 },
            },
            anchor_centroid: None,
            condition_centroids,
            adapted: None,
        };
        assert(r@ =~= PoolModel::empty(config));
        r
    }

    pub fn config(&self) -> (r: EmbeddingPoolConfig)
        ensures
            r == self@.config,
    {
        self.config
    }

    pub fn anchors(&self) -> (r: &[Vec<Binary32>])
        ensures
            vectors::rows(r@) == self@.anchors,
    {
        self.anchors.as_slice()
    }

    /// The running evidence, before the residual pull is applied. `None`
    /// until the first admission.
    pub fn evidence(&self) -> (r: Option<&[Binary32]>)
        ensures
            r is Some <==> self@.evidence is Some,
            r matches Some(v) ==> Some(v@) == self@.evidence,
    {
        borrowed(&self.evidence)
    }

    /// The adapted embedding, or `None` until the first admission.
    pub fn adapted(&self) -> (r: Option<&[Binary32]>)
        requires
            self.valid(),
        ensures
            r is Some <==> self@.adapted() is Some,
            r matches Some(v) ==> Some(v@) == self@.adapted(),
    {
        borrowed(&self.adapted)
    }

    pub fn metadata(&self) -> (r: EnrollmentMetadata)
        ensures
            r == self@.metadata,
    {
        self.metadata
    }

    /// Number of distinct reference embeddings: every anchor, plus the
    /// adapted embedding when one exists.
    pub fn len(&self) -> (n: usize)
        requires
            self.valid(),
            self@.references().len() <= usize::MAX,
        ensures
            n == self@.references().len(),
    {
        if self.adapted.is_some() {
            self.anchors.len() + 1
        } else {
            self.anchors.len()
        }
    }

    pub fn is_empty(&self) -> (r: bool)
        requires
            self.valid(),
        ensures
            r == (self@.references().len() == 0),
    {
        self.anchors.len() == 0 && self.adapted.is_none()
    }

    /// The anchors first, then the adapted embedding (if any).
    pub fn iter(&self) -> (r: Vec<&[Binary32]>)
        requires
            self.valid(),
        ensures
            r@.len() == self@.references().len(),
            forall|i: int| 0 <= i < r@.len() ==> (#[trigger] r@[i])@ == self@.references()[i],
    {
        let mut r: Vec<&[Binary32]> = Vec::new();
        let mut i: usize = 0;
        while i < self.anchors.len()
            invariant
                i <= self.anchors.len(),
                r.len() == i,
                forall|k: int| 0 <= k < i ==> (#[trigger] r@[k])@ == self@.anchors[k],
            decreases self.anchors.len() - i,
        {
            r.push(self.anchors[i].as_slice());
            i = i + 1;
        }
        match &self.adapted {
            Some(v) => {
                r.push(v.as_slice());
            },
            None => {},
        }
        r
    }

    /// Adds enrollment recordings.
    pub fn add_anchors(&mut self, embeddings: Vec<Vec<Binary32>>)
        requires
            old(self).valid(),
        ensures
            final(self).valid(),
            final(self)@ == (PoolModel {
                anchors: old(self)@.anchors + vectors::rows(embeddings@),
                ..old(self)@
            }),
    {
        let ghost m = self@;
        let ghost added = vectors::rows(embeddings@);
        let mut more: Vec<Vec<Binary32>> = embeddings;
        self.anchors.append(&mut more);
        assert(vectors::rows(self.anchors@) =~= m.anchors + added);
        self.refresh();
    }

    /// Brings everything that is cached up to date with the anchors.
    fn refresh(&mut self)
        ensures
            final(self).valid(),
            final(self)@ == old(self)@,
    {
        self.anchor_centroid = elementwise_mean(self.anchors.as_slice());
        self.condition_centroids = condition_groups(self.anchors.as_slice());
        self.recompute_adapted();
    }

    /// Element-wise mean of the anchor embeddings, or `None` when the pool has
    /// no anchors yet.
    pub fn anchor_centroid(&self) -> (r: Option<&[Binary32]>)
        requires
            self.valid(),
        ensures
            r is Some <==> self@.centroid() is Some,
            r matches Some(v) ==> Some(v@) == self@.centroid(),
    {
        borrowed(&self.anchor_centroid)
    }

    /// The acoustic-condition means that [`Self::match_score`] compares
    /// against. Empty for an empty pool.
    pub fn condition_centroids(&self) -> (r: &[Vec<Binary32>])
        requires
            self.valid(),
        ensures
            vectors::rows(r@) == conditions(self@.anchors),
            r@.len() <= MAX_CONDITION_GROUPS,
    {
        proof {
            law_conditions_capped(self@.anchors);
            assert(vectors::rows(self.condition_centroids@).len()
                == self.condition_centroids@.len());
        }
        self.condition_centroids.as_slice()
    }

    /// Match score for `emb`: the maximum cosine similarity over the
    /// acoustic-condition means plus the adapted embedding.
    ///
    /// The maximum runs over conditions and not over raw anchors, so that an
    /// unrelated speaker has no lottery ticket for every anchor, and not over
    /// a single mean, which would score every condition worse than itself.
    /// Floors at `0.0`; returns `0.0` for an empty pool.
    pub fn match_score(&self, emb: &[Binary32]) -> (r: Binary32)
        requires
            self.valid(),
        ensures
            r == self@.score(emb@),
    {
        let ghost t = self@.targets();
        let ghost s = similarities(t, emb@);
        let mut best: Binary32 = Binary32 { bits: vectors::NEGATIVE_INFINITY };
        let mut i: usize = 0;
        while i < self.condition_centroids.len()
            invariant
                self.valid(),
                i <= self.condition_centroids.len(),
                t == self@.targets(),
                s == similarities(t, emb@),
                best == vectors::greatest(vectors::lowest(), s, i as nat),
            decreases self.condition_centroids.len() - i,
        {
            let c: Binary32 = cos_similarity(emb, self.condition_centroids[i].as_slice());
            proof {
                assert(vectors::rows(self.condition_centroids@)[i as int]
                    == self.condition_centroids@[i as int]@);
                assert(t[i as int] == self.condition_centroids@[i as int]@);
            }
            best = best.maximum(c);
            i = i + 1;
        }
        assert(vectors::rows(self.condition_centroids@).len() == i);
        match &self.adapted {
            Some(v) => {
                assert(t[i as int] == v@);
                best = best.maximum(cos_similarity(emb, v.as_slice()));
            },
            None => {},
        }
        if best.is_finite() {
            best.maximum(Binary32 { bits: 0 })
        } else {
            Binary32 { bits: 0 }
        }
    }

    pub fn set_f0_stats(&mut self, mu: Binary32, sigma: Binary32)
        requires
            old(self).valid(),
        ensures
            final(self).valid(),
            final(self)@ == (PoolModel {
                metadata: EnrollmentMetadata { f0_mu: mu, f0_sigma: sigma },
                ..old(self)@
            }),
    {
        self.metadata = EnrollmentMetadata { f0_mu: mu, f0_sigma: sigma };
    }

    /// `1 - max_cos(anchors)`. Returns `None` if there are no anchors.
    pub fn anchor_distance(&self, emb: &[Binary32]) -> (r: Option<Binary32>)
        ensures
            r == self@.distance(emb@),
    {
        if self.anchors.len() == 0 {
            return None;
        }
        let ghost s = similarities(self@.anchors, emb@);
        let mut best: Binary32 = Binary32 { bits: vectors::NEGATIVE_INFINITY };
        let mut i: usize = 0;
        while i < self.anchors.len()
            invariant
                i <= self.anchors.len(),
                s == similarities(self@.anchors, emb@),
                best == vectors::greatest(vectors::lowest(), s, i as nat),
            decreases self.anchors.len() - i,
        {
            best = best.maximum(cos_similarity(emb, self.anchors[i].as_slice()));
            i = i + 1;
        }
        Some(Binary32 { bits: vectors::ONE }.minus(best))
    }

    /// Drift-safety check before folding a candidate into the adapted
    /// embedding. Returns `false` when there are no anchors yet.
    pub fn can_auto_learn(&self, emb: &[Binary32]) -> (r: bool)
        ensures
            r == self@.admits(emb@),
    {
        match self.anchor_distance(emb) {
            Some(d) => d.at_most(self.config.anchor_distance_threshold),
            None => false,
        }
    }

    /// Seed the very first anchor from a runtime embedding, plus the F0 prior
    /// to use against subsequent refreshes. Fires only when the pool is still
    /// empty and bootstrapping is allowed. Returns `true` iff the seed was
    /// installed.
    pub fn bootstrap_seed(&mut self, emb: Vec<Binary32>, f0_mu: Binary32, f0_sigma: Binary32) -> (r:
        bool)
        requires
            old(self).valid(),
        ensures
            final(self).valid(),
            r == old(self)@.takes_seed(),
            final(self)@ == (if r {
                old(self)@.seeded(emb@, f0_mu, f0_sigma)
            } else {
                old(self)@
            }),
    {
        if !self.config.allow_bootstrap_from_runtime || !self.is_empty() {
            return false;
        }
        let ghost v = emb@;
        self.anchors.push(emb);
        self.metadata = EnrollmentMetadata { f0_mu, f0_sigma };
        assert(vectors::rows(self.anchors@) =~= seq![v]);
        self.refresh();
        true
    }

    /// Fold a high-confidence runtime candidate into the adapted embedding.
    /// Returns `true` when the candidate cleared [`Self::can_auto_learn`] and
    /// was incorporated.
    ///
    /// The first admission seeds the evidence with the candidate verbatim;
    /// later ones are averaged in at rate `adapt_rate`.
    pub fn adapt(&mut self, emb: Vec<Binary32>) -> (r: bool)
        requires
            old(self).valid(),
        ensures
            final(self).valid(),
            r == old(self)@.admits(emb@),
            final(self)@ == (if r {
                old(self)@.learned(emb@)
            } else {
                old(self)@
            }),
    {
        if !self.can_auto_learn(emb.as_slice()) {
            return false;
        }
        let ghost m = self@;
        let rate: Binary32 = self.config.adapt_rate;
        let evidence: Option<Vec<Binary32>> = self.evidence.take();
        let next: Vec<Binary32> = match evidence {
            None => emb,
            Some(e) => fold(rate, e.as_slice(), emb.as_slice()),
        };
        self.evidence = Some(next);
        assert(self@ =~= m.learned(emb@));
        self.recompute_adapted();
        true
    }

    /// Refreshes the adapted embedding.
    fn recompute_adapted(&mut self)
        requires
            vectors::optional(old(self).anchor_centroid) == old(self)@.centroid(),
            vectors::rows(old(self).condition_centroids@) == conditions(old(self)@.anchors),
        ensures
            final(self).valid(),
            final(self)@ == old(self)@,
    {
        let adapted: Option<Vec<Binary32>> = match &self.evidence {
            None => None,
            Some(e) => Some(
                match &self.anchor_centroid {
                    Some(c) => vectors::blend(
                        self.config.adapt_residual_lambda,
                        c.as_slice(),
                        Binary32 { bits: vectors::ONE }.minus(self.config.adapt_residual_lambda),
                        e.as_slice(),
                    ),
                    None => vectors::copy(e.as_slice()),
                },
            ),
        };
        self.adapted = adapted;
    }
}

impl Clone for EmbeddingPool {
    fn clone(&self) -> (r: Self)
        ensures
            r@ == self@,
            self.valid() ==> r.valid(),
    {
        EmbeddingPool {
            config: self.config,
            anchors: vectors::copy_rows(self.anchors.as_slice()),
            evidence: copied(&self.evidence),
            metadata: self.metadata,
            anchor_centroid: copied(&self.anchor_centroid),
            condition_centroids: vectors::copy_rows(self.condition_centroids.as_slice()),
            adapted: copied(&self.adapted),
        }
    }
}

/// A copy of an optional vector.
fn copied(v: &Option<Vec<Binary32>>) -> (r: Option<Vec<Binary32>>)
    ensures
        vectors::optional(r) == vectors::optional(*v),
{
    match v {
        Some(x) => Some(vectors::copy(x.as_slice())),
        None => None,
    }
}

/// The vector behind an optional one, borrowed.
fn borrowed(v: &Option<Vec<Binary32>>) -> (r: Option<&[Binary32]>)
    ensures
        r is Some <==> *v is Some,
        r matches Some(x) ==> Some(x@) == vectors::optional(*v),
{
    match v {
        Some(x) => Some(x.as_slice()),
        None => None,
    }
}

/// One step of the running average.
fn fold(rate: Binary32, evidence: &[Binary32], emb: &[Binary32]) -> (r: Vec<Binary32>)
    ensures
        r@ == folded(rate, evidence@, emb@),
{
    let keep: Binary32 = Binary32 { bits: vectors::ONE }.minus(rate);
    let mut r: Vec<Binary32> = Vec::with_capacity(evidence.len());
    let mut i: usize = 0;
    while i < evidence.len()
        invariant
            i <= evidence.len(),
            keep == vectors::one().difference(rate),
            r.len() == i,
            forall|k: int| 0 <= k < i ==> r@[k] == folded(rate, evidence@, emb@)[k],
        decreases evidence.len() - i,
    {
        if i < emb.len() {
            r.push(keep.times(evidence[i]).plus(rate.times(emb[i])));
        } else {
            r.push(evidence[i]);
        }
        i = i + 1;
    }
    assert(r@ =~= folded(rate, evidence@, emb@));
    r
}

/// Stored form of an [`EmbeddingPool`].
#[derive(Debug, Clone)]
pub struct PoolPayload {
    pub version: u32,
    pub anchors: Vec<Vec<Binary32>>,
    /// The running evidence, since version 2.
    pub evidence: Option<Vec<Binary32>>,
    /// The admitted embeddings of version 1. Ignored when `evidence` is
    /// present, otherwise averaged into it.
    pub auto_learn: Vec<Vec<Binary32>>,
    pub metadata: EnrollmentMetadata,
}

impl PoolPayload {
    /// The evidence that the payload carries.
    pub open spec fn carried(self) -> Option<Seq<Binary32>> {
        match self.evidence {
            Some(e) => Some(e@),
            None => if self.auto_learn@.len() == 0 {
                None
            } else {
                Some(vectors::mean(vectors::rows(self.auto_learn@)))
            },
        }
    }

    /// The pool that the payload describes.
    pub open spec fn model(self, config: EmbeddingPoolConfig) -> PoolModel {
        PoolModel {
            config,
            anchors: vectors::rows(self.anchors@),
            evidence: self.carried(),
            metadata: self.metadata,
        }
    }

    pub fn from_pool(pool: &EmbeddingPool) -> (r: Self)
        ensures
            r.version == PERSISTENCE_VERSION,
            vectors::rows(r.anchors@) == pool@.anchors,
            vectors::optional(r.evidence) == pool@.evidence,
            r.auto_learn@.len() == 0,
            r.metadata == pool@.metadata,
    {
        PoolPayload {
            version: PERSISTENCE_VERSION,
            anchors: vectors::copy_rows(pool.anchors.as_slice()),
            evidence: copied(&pool.evidence),
            auto_learn: Vec::new(),
            metadata: pool.metadata,
        }
    }

    /// The pool of a payload. What version 1 kept as a list of admitted
    /// embeddings becomes their mean.
    pub fn into_pool(self, config: EmbeddingPoolConfig) -> (r: EmbeddingPool)
        ensures
            r.valid(),
            r@ == self.model(config),
    {
        let evidence: Option<Vec<Binary32>> = match self.evidence {
            Some(e) => Some(e),
            None => elementwise_mean(self.auto_learn.as_slice()),
        };
        let mut pool: EmbeddingPool = EmbeddingPool {
            config,
            anchors: self.anchors,
            evidence,
            metadata: self.metadata,
            anchor_centroid: None,
            condition_centroids: Vec::new(),
            adapted: None,
        };
        pool.refresh();
        pool
    }
}

/// Errors of the stored form of an [`EmbeddingPool`].
#[derive(Debug)]
pub enum PersistenceError {
    Io(String),
    Json(String),
    UnsupportedVersion(u32),
}

impl PersistenceError {
    /// What the user is told.
    pub open spec fn text(self) -> Seq<char> {
        match self {
            PersistenceError::Io(e) => "I/O error: "@ + e@,
            PersistenceError::Json(e) => "JSON error: "@ + e@,
            PersistenceError::UnsupportedVersion(v) => "unsupported enrollment version: "@
                + text::decimal_text(v as nat),
        }
    }

    /// What the user is told.
    pub fn message(&self) -> (r: String)
        ensures
            r@ == self.text(),
    {
        match self {
            PersistenceError::Io(e) => text::joined("I/O error: ", e.as_str()),
            PersistenceError::Json(e) => text::joined("JSON error: ", e.as_str()),
            PersistenceError::UnsupportedVersion(v) => text::joined(
                "unsupported enrollment version: ",
                text::decimal(*v as u64).as_str(),
            ),
        }
    }
}

impl EmbeddingPool {
    /// The pool of a payload whose version is known: 1 or
    /// [`PERSISTENCE_VERSION`].
    pub fn from_payload(payload: PoolPayload, config: EmbeddingPoolConfig) -> (r: Result<
        EmbeddingPool,
        PersistenceError,
    >)
        ensures
            r is Ok <==> payload.version == 1 || payload.version == PERSISTENCE_VERSION,
            r matches Ok(pool) ==> pool.valid() && pool@ == payload.model(config),
            r matches Err(e) ==> e == PersistenceError::UnsupportedVersion(payload.version),
    {
        if payload.version != 1 && payload.version != PERSISTENCE_VERSION {
            return Err(PersistenceError::UnsupportedVersion(payload.version));
        }
        Ok(payload.into_pool(config))
    }
}

/// Storing a pool and reading it back with the same knobs gives the same
/// anchors, evidence and statistics, hence the same scores.
pub proof fn law_payload_round_trip(pool: PoolModel, payload: PoolPayload)
    requires
        payload.version == PERSISTENCE_VERSION,
        vectors::rows(payload.anchors@) == pool.anchors,
        vectors::optional(payload.evidence) == pool.evidence,
        payload.auto_learn@.len() == 0,
        payload.metadata == pool.metadata,
    ensures
        payload.model(pool.config) == pool,
        forall|emb: Seq<Binary32>| #[trigger]
            payload.model(pool.config).score(emb) == pool.score(emb),
{
    assert(payload.model(pool.config) =~= pool);
}

/// A pool without anchors learns nothing, whatever it is offered.
pub proof fn law_no_learning_without_anchor(pool: PoolModel, emb: Seq<Binary32>)
    requires
        pool.anchors.len() == 0,
    ensures
        !pool.admits(emb),
{
}

/// Nothing that is learned changes the anchors, their mean, or the conditions
/// that they are compared as: enrollment is immutable.
pub proof fn law_learning_keeps_enrollment(pool: PoolModel, emb: Seq<Binary32>)
    ensures
        pool.learned(emb).anchors == pool.anchors,
        pool.learned(emb).centroid() == pool.centroid(),
        conditions(pool.learned(emb).anchors) == conditions(pool.anchors),
        pool.learned(emb).metadata == pool.metadata,
{
}

/// A score is a number, and not below zero.
pub proof fn law_score_floors_at_zero(pool: PoolModel, emb: Seq<Binary32>)
    ensures
        vectors::zero().le(pool.score(emb)),
        pool.references().len() == 0 ==> pool.score(emb) == vectors::zero(),
{
    let t = pool.targets();
    let s = similarities(t, emb);
    vectors::law_greatest(vectors::lowest(), s, t.len());
    let best = vectors::greatest(vectors::lowest(), s, t.len());
    crate::binary32::lemma_total(best, vectors::zero(), vectors::zero());
    crate::binary32::lemma_total(vectors::zero(), best, best);
    law_conditions_capped(pool.anchors);
}

/// A pool with one anchor that has learned nothing scores exactly the cosine
/// to that anchor, where that is a number and not below zero.
pub proof fn law_single_anchor_scores_its_cosine(pool: PoolModel, emb: Seq<Binary32>)
    requires
        pool.anchors.len() == 1,
        pool.evidence is None,
        cosine(emb, pool.anchors[0]).finite(),
        vectors::zero().le(cosine(emb, pool.anchors[0])),
    ensures
        pool.score(emb) == cosine(emb, pool.anchors[0]),
{
    let a = pool.anchors[0];
    let c = cosine(emb, a);
    assert(pool.anchors =~= seq![a]);
    law_single_anchor_verbatim(a);
    let t = pool.targets();
    let s = similarities(t, emb);
    reveal_with_fuel(vectors::greatest, 2);
    assert(s[0] == c);
    assert(vectors::lowest().lt(c)) by {
        reveal(Binary32::lt);
        crate::binary32::lemma_format();
        let f = crate::binary32::format();
        let p = c.parts();
        crate::binary::lemma_order(f, p.pattern, f.top);
        assert(vectors::lowest().parts().pattern == f.top);
        assert(vectors::lowest().parts().negative);
    }
    crate::binary32::lemma_total(vectors::zero(), c, c);
    crate::binary32::lemma_total(c, vectors::zero(), c);
}

/// A pool is seeded from runtime at most once, and never where that is not
/// allowed or an anchor is there.
pub proof fn law_seeded_once(
    pool: PoolModel,
    emb: Seq<Binary32>,
    f0_mu: Binary32,
    f0_sigma: Binary32,
)
    ensures
        !pool.seeded(emb, f0_mu, f0_sigma).takes_seed(),
        pool.anchors.len() > 0 ==> !pool.takes_seed(),
        !pool.config.allow_bootstrap_from_runtime ==> !pool.takes_seed(),
{
}

/// The ends of a weighted mean: with all the weight on one side it is that side.
pub proof fn lemma_step_ends(c: Binary32, e: Binary32)
    requires
        c.finite(),
        e.finite(),
    ensures
        ({
            let one = vectors::one();
            let zero = vectors::zero();
            &&& vectors::mixed(one, c, one.difference(one), e).units() == c.units()
            &&& vectors::mixed(zero, c, one.difference(zero), e).units() == e.units()
            &&& vectors::mixed(one.difference(zero), c, zero, e).units() == c.units()
            &&& vectors::mixed(one.difference(one), c, one, e).units() == e.units()
        }),
{
    let one = vectors::one();
    let zero = vectors::zero();
    crate::binary32::lemma_format();
    crate::binary32::lemma_one();
    let none = one.difference(one);
    crate::binary32::lemma_one_less_one();
    let all = one.difference(zero);
    assert(all == one) by {
        reveal(Binary32::sum);
        reveal(Binary32::negation);
        let f = crate::binary32::format();
        let z = zero.negation();
        crate::binary::lemma_order(f, one.parts().pattern, 0);
        assert(z.parts().pattern == 0 && z.parts().units(f) == 0);
        crate::rounding::lemma_representable(f.h(), f.inf(), one.parts().pattern as nat, 1);
        crate::binary32::lemma_parts(one);
    }
    lemma_one_times(c);
    lemma_one_times(e);
    crate::binary32::lemma_times_zero(none, e);
    crate::binary32::lemma_times_zero(none, c);
    crate::binary32::lemma_times_zero(zero, c);
    crate::binary32::lemma_times_zero(zero, e);
    crate::binary32::lemma_plus_zero(none.product(e), c);
    crate::binary32::lemma_plus_zero(none.product(c), e);
    crate::binary32::lemma_plus_zero(zero.product(c), e);
    crate::binary32::lemma_plus_zero(zero.product(e), c);
}

/// The ends of the residual pull: at one the adapted embedding is pinned to
/// the mean of the anchors, at zero it follows the evidence.
pub proof fn law_residual_pull_has_its_ends(c: Binary32, e: Binary32)
    requires
        c.finite(),
        e.finite(),
    ensures
        ({
            let one = vectors::one();
            let zero = vectors::zero();
            &&& vectors::mixed(one, c, one.difference(one), e).units() == c.units()
            &&& vectors::mixed(zero, c, one.difference(zero), e).units() == e.units()
        }),
{
    lemma_step_ends(c, e);
}

/// One times a number is that number.
proof fn lemma_one_times(a: Binary32)
    requires
        a.finite(),
    ensures
        vectors::one().product(a) == a,
{
    crate::binary32::lemma_times_one(a);
    assert(vectors::one().product(a) == a.product(vectors::one())) by {
        reveal(Binary32::product);
        let f = crate::binary32::format();
        let x = vectors::one().parts();
        let y = a.parts();
        assert(x.magnitude(f) * y.magnitude(f) == y.magnitude(f) * x.magnitude(f))
            by (nonlinear_arith);
    }
}

/// No similarity of a window to what a pool compares it with is infinite.
pub open spec fn in_reach(pool: PoolModel, emb: Seq<Binary32>) -> bool {
    &&& forall|i: int|
        0 <= i < conditions(pool.anchors).len() ==> {
            let c = cosine(emb, #[trigger] conditions(pool.anchors)[i]);
            c.finite() || c.nan()
        }
    &&& pool.adapted() matches Some(v) ==> cosine(emb, v).finite() || cosine(emb, v).nan()
}

/// The best of the similarities that a pool compares is one of them, unless none
/// is a number, and none of them is greater.
proof fn lemma_best_target(pool: PoolModel, emb: Seq<Binary32>)
    ensures
        ({
            let t = pool.targets();
            let best = vectors::greatest(vectors::lowest(), similarities(t, emb), t.len());
            &&& !best.nan()
            &&& forall|i: int|
                0 <= i < conditions(pool.anchors).len() && !cosine(
                    emb,
                    conditions(pool.anchors)[i],
                ).nan() ==> cosine(emb, #[trigger] conditions(pool.anchors)[i]).le(best)
            &&& pool.adapted() matches Some(v) ==> (!cosine(emb, v).nan() ==> cosine(emb, v).le(
                best,
            ))
            &&& {
                ||| best == vectors::lowest()
                ||| exists|i: int|
                    0 <= i < conditions(pool.anchors).len() && cosine(
                        emb,
                        #[trigger] conditions(pool.anchors)[i],
                    ) == best
                ||| pool.adapted() matches Some(v) && cosine(emb, v) == best
            }
        }),
{
    let c = conditions(pool.anchors);
    let t = pool.targets();
    let s = similarities(t, emb);
    let best = vectors::greatest(vectors::lowest(), s, t.len());
    vectors::law_greatest(vectors::lowest(), s, t.len());
    assert forall|i: int| 0 <= i < c.len() && !cosine(emb, c[i]).nan() implies cosine(
        emb,
        #[trigger] c[i],
    ).le(best) by {
        assert(t[i] == c[i]);
        assert(s[i] == cosine(emb, c[i]));
    }
    if pool.adapted() is Some {
        let v = pool.adapted()->0;
        assert(t[c.len() as int] == v);
        assert(s[c.len() as int] == cosine(emb, v));
    }
    if best != vectors::lowest() {
        let i = choose|i: int| 0 <= i < t.len() && #[trigger] s[i] == best;
        if i < c.len() {
            assert(cosine(emb, c[i]) == best);
        }
    }
}

/// A window is scored by what it resembles most: the score is not below its
/// similarity to any acoustic condition of the enrollment, nor to the adapted
/// embedding, and it is one of those similarities, or zero.
pub proof fn law_score_is_the_best_match(pool: PoolModel, emb: Seq<Binary32>)
    requires
        in_reach(pool, emb),
    ensures
        ({
            let c = conditions(pool.anchors);
            let x = pool.score(emb);
            &&& vectors::zero().le(x)
            &&& forall|i: int|
                0 <= i < c.len() && !cosine(emb, c[i]).nan() ==> cosine(emb, #[trigger] c[i]).le(x)
            &&& pool.adapted() matches Some(v) ==> (!cosine(emb, v).nan() ==> cosine(emb, v).le(x))
            &&& {
                ||| x == vectors::zero()
                ||| exists|i: int| 0 <= i < c.len() && cosine(emb, #[trigger] c[i]) == x
                ||| pool.adapted() matches Some(v) && cosine(emb, v) == x
            }
        }),
{
    let c = conditions(pool.anchors);
    let t = pool.targets();
    let best = vectors::greatest(vectors::lowest(), similarities(t, emb), t.len());
    let x = pool.score(emb);
    let zero = vectors::zero();
    lemma_best_target(pool, emb);
    crate::binary32::lemma_total(zero, zero, zero);
    crate::binary32::lemma_total(best, zero, zero);
    crate::binary32::lemma_total(zero, best, best);
    if best.finite() {
        assert forall|i: int| 0 <= i < c.len() && !cosine(emb, c[i]).nan() implies cosine(
            emb,
            #[trigger] c[i],
        ).le(x) by {
            crate::binary32::lemma_total(cosine(emb, c[i]), best, x);
        }
        if pool.adapted() is Some {
            let v = pool.adapted()->0;
            if !cosine(emb, v).nan() {
                crate::binary32::lemma_total(cosine(emb, v), best, x);
            }
        }
    } else {
        assert(best == vectors::lowest());
        assert forall|i: int| 0 <= i < c.len() && !cosine(emb, c[i]).nan() implies false by {
            lemma_nothing_below(cosine(emb, c[i]));
        }
        if pool.adapted() is Some && !cosine(emb, pool.adapted()->0).nan() {
            lemma_nothing_below(cosine(emb, pool.adapted()->0));
        }
    }
}

/// No finite number is at most the infinity below all of them.
proof fn lemma_nothing_below(a: Binary32)
    requires
        a.finite(),
    ensures
        !a.le(vectors::lowest()),
{
    reveal(Binary32::le);
    crate::binary32::lemma_format();
    let f = crate::binary32::format();
    crate::binary::lemma_order(f, a.parts().pattern, f.top);
    crate::binary::lemma_order(f, 0, f.top);
}

/// Whatever a pool has learned, no window scores lower than it would with the
/// enrollment alone.
pub proof fn law_learning_never_lowers_a_score(pool: PoolModel, emb: Seq<Binary32>)
    requires
        in_reach(pool, emb),
    ensures
        (PoolModel { evidence: None, ..pool }).score(emb).le(pool.score(emb)),
{
    let plain = PoolModel { evidence: None, ..pool };
    law_score_is_the_best_match(pool, emb);
    assert(in_reach(plain, emb));
    law_score_is_the_best_match(plain, emb);
    let x = plain.score(emb);
    let c = conditions(pool.anchors);
    if x != vectors::zero() {
        let i = choose|i: int| 0 <= i < c.len() && cosine(emb, #[trigger] c[i]) == x;
        assert(!x.nan()) by {
            reveal(Binary32::le);
        }
        assert(cosine(emb, c[i]).le(pool.score(emb)));
    }
}

/// A window that is an enrolled condition itself, to the last bit of its
/// similarity, is scored as such, whatever has been learned.
pub proof fn law_enrolled_conditions_keep_their_score(pool: PoolModel, i: int)
    requires
        0 <= i < conditions(pool.anchors).len(),
        in_reach(pool, conditions(pool.anchors)[i]),
        !cosine(conditions(pool.anchors)[i], conditions(pool.anchors)[i]).nan(),
    ensures
        cosine(conditions(pool.anchors)[i], conditions(pool.anchors)[i]).le(
            pool.score(conditions(pool.anchors)[i]),
        ),
{
    law_score_is_the_best_match(pool, conditions(pool.anchors)[i]);
}

/// The ends of the residual pull on a whole pool: at one its adapted embedding
/// is the mean of the anchors, at zero it is the evidence, element by element.
pub proof fn law_adapted_lies_between_its_ends(pool: PoolModel, i: int)
    requires
        pool.anchors.len() > 0,
        pool.evidence is Some,
        pool.config.adapt_residual_lambda == vectors::zero() || pool.config.adapt_residual_lambda
            == vectors::one(),
        0 <= i < vectors::mean(pool.anchors).len(),
        i < pool.evidence->0.len(),
        vectors::mean(pool.anchors)[i].finite(),
        pool.evidence->0[i].finite(),
    ensures
        pool.adapted() matches Some(v) && i < v.len() && v[i].units() == (
        if pool.config.adapt_residual_lambda == vectors::one() {
            vectors::mean(pool.anchors)[i].units()
        } else {
            pool.evidence->0[i].units()
        }),
{
    lemma_step_ends(vectors::mean(pool.anchors)[i], pool.evidence->0[i]);
}

/// The first admitted window becomes the evidence as it is. A later one replaces
/// it at rate one, and leaves it alone at rate zero.
pub proof fn law_evidence_follows_the_windows(pool: PoolModel, emb: Seq<Binary32>, i: int)
    requires
        pool.evidence is None ==> 0 <= i < emb.len(),
        pool.evidence is Some ==> {
            &&& 0 <= i < pool.evidence->0.len()
            &&& i < emb.len()
            &&& emb[i].finite()
            &&& pool.evidence->0[i].finite()
            &&& pool.config.adapt_rate == vectors::zero() || pool.config.adapt_rate
                == vectors::one()
        },
    ensures
        pool.evidence is None ==> pool.learned(emb).evidence == Some(emb),
        pool.evidence is Some ==> (pool.learned(emb).evidence matches Some(e) && e.len()
            == pool.evidence->0.len() && e[i].units() == (if pool.config.adapt_rate
            == vectors::one() {
            emb[i].units()
        } else {
            pool.evidence->0[i].units()
        })),
{
    if pool.evidence is Some {
        lemma_step_ends(pool.evidence->0[i], emb[i]);
    }
}

/// The distance to the enrollment is that to the nearest anchor: no anchor is
/// nearer, and one is as near, unless no similarity is a number.
pub proof fn law_distance_is_to_the_nearest_anchor(pool: PoolModel, emb: Seq<Binary32>)
    requires
        pool.anchors.len() > 0,
        forall|i: int|
            0 <= i < pool.anchors.len() ==> cosine(emb, #[trigger] pool.anchors[i]).finite(),
    ensures
        pool.distance(emb) matches Some(d) && {
            &&& forall|i: int|
                0 <= i < pool.anchors.len() ==> d.le(
                    vectors::one().difference(cosine(emb, #[trigger] pool.anchors[i])),
                )
            &&& exists|i: int|
                0 <= i < pool.anchors.len() && d == vectors::one().difference(
                    cosine(emb, #[trigger] pool.anchors[i]),
                )
        },
{
    let s = similarities(pool.anchors, emb);
    let best = vectors::greatest(vectors::lowest(), s, pool.anchors.len());
    vectors::law_greatest(vectors::lowest(), s, pool.anchors.len());
    assert(s[0] == cosine(emb, pool.anchors[0]));
    if best == vectors::lowest() {
        assert(s[0].le(best));
        lemma_nothing_below(s[0]);
    }
    let k = choose|k: int| 0 <= k < pool.anchors.len() && #[trigger] s[k] == best;
    assert(cosine(emb, pool.anchors[k]) == best);
    let d = vectors::one().difference(best);
    assert forall|i: int| 0 <= i < pool.anchors.len() implies d.le(
        vectors::one().difference(cosine(emb, #[trigger] pool.anchors[i])),
    ) by {
        let c = cosine(emb, pool.anchors[i]);
        assert(s[i] == c);
        lemma_farther(c, best);
    }
}

/// What is less similar is no nearer.
proof fn lemma_farther(c: Binary32, best: Binary32)
    requires
        c.finite(),
        best.finite(),
        c.le(best),
    ensures
        vectors::one().difference(best).le(vectors::one().difference(c)),
{
    let one = vectors::one();
    let f = crate::binary32::format();
    crate::binary32::lemma_format();
    reveal(Binary32::le);
    reveal(Binary32::sum);
    reveal(Binary32::negation);
    let a = best.negation();
    let b = c.negation();
    assert(a.parts().units(f) == -best.units());
    assert(b.parts().units(f) == -c.units());
    crate::binary::lemma_sum_monotone(f, one.parts(), a.parts(), b.parts());
    let p = crate::binary::sum(f, one.parts(), a.parts());
    let q = crate::binary::sum(f, one.parts(), b.parts());
    crate::binary::lemma_numbers(f, one.parts(), a.parts());
    crate::binary::lemma_numbers(f, one.parts(), b.parts());
    assert(Binary32::of(p).parts() == p);
    assert(Binary32::of(q).parts() == q);
}

/// A window is learned from exactly where one anchor is near enough to it.
pub proof fn law_only_windows_near_an_anchor_are_learned(pool: PoolModel, emb: Seq<Binary32>)
    requires
        forall|i: int|
            0 <= i < pool.anchors.len() ==> cosine(emb, #[trigger] pool.anchors[i]).finite(),
    ensures
        pool.admits(emb) <==> exists|i: int|
            0 <= i < pool.anchors.len() && vectors::one().difference(
                cosine(emb, #[trigger] pool.anchors[i]),
            ).le(pool.config.anchor_distance_threshold),
{
    if pool.anchors.len() > 0 {
        law_distance_is_to_the_nearest_anchor(pool, emb);
        let d = pool.distance(emb)->0;
        if exists|i: int|
            0 <= i < pool.anchors.len() && vectors::one().difference(
                cosine(emb, #[trigger] pool.anchors[i]),
            ).le(pool.config.anchor_distance_threshold) {
            let i = choose|i: int|
                0 <= i < pool.anchors.len() && vectors::one().difference(
                    cosine(emb, #[trigger] pool.anchors[i]),
                ).le(pool.config.anchor_distance_threshold);
            assert(d.le(vectors::one().difference(cosine(emb, pool.anchors[i]))));
            reveal(Binary32::le);
        }
    }
}

/// The pair of groups that is merged is as close as any.
pub proof fn law_merged_groups_are_the_closest(means: Seq<Seq<Binary32>>, a: int, b: int)
    requires
        0 <= a < b < means.len(),
        vectors::lowest().lt(cosine(means[a], means[b])),
    ensures
        ({
            let (i, j) = closest_pair(means);
            &&& 0 <= i < j < means.len()
            &&& cosine(means[a], means[b]).le(cosine(means[i], means[j]))
        }),
{
    let (i, j) = lemma_some_closest(means, a, b);
    lemma_closest_unique(means, i, j);
    let s = closeness(means, a, b);
    let t = closeness(means, i, j);
    assert(!t.lt(s));
    assert(!s.nan() && !t.nan()) by {
        reveal(Binary32::lt);
    }
    crate::binary32::lemma_total(t, s, s);
}

/// Where a pair is similar to any degree, one pair is the closest.
proof fn lemma_some_closest(means: Seq<Seq<Binary32>>, a: int, b: int) -> (r: (int, int))
    requires
        0 <= a < b < means.len(),
        vectors::lowest().lt(closeness(means, a, b)),
    ensures
        is_closest(means, r.0, r.1),
{
    let n = means.len() as int;
    let (found, first, second, best) = lemma_searched(means, n);
    assert(closeness(means, a, b) == closeness(means, a, b));
    assert(!best.lt(closeness(means, a, b)));
    assert(found) by {
        if !found {
            assert(best == vectors::lowest());
        }
    }
    lemma_search_done(means, found, first, second, best);
    (first, second)
}

proof fn lemma_searched(means: Seq<Seq<Binary32>>, i: int) -> (r: (bool, int, int, Binary32))
    requires
        means.len() >= 2,
        0 <= i <= means.len(),
    ensures
        search(means, i, 0, r.0, r.1, r.2, r.3),
    decreases i,
{
    if i == 0 {
        assert(!vectors::lowest().nan());
        (false, 0, 1, vectors::lowest())
    } else {
        let (found, first, second, best) = lemma_searched(means, i - 1);
        lemma_search_row(means, i - 1, found, first, second, best);
        let r = lemma_searched_row(means, i - 1, i, found, first, second, best);
        lemma_search_next(means, i, r.0, r.1, r.2, r.3);
        r
    }
}

proof fn lemma_searched_row(
    means: Seq<Seq<Binary32>>,
    i: int,
    j: int,
    found: bool,
    first: int,
    second: int,
    best: Binary32,
) -> (r: (bool, int, int, Binary32))
    requires
        0 <= i < j <= means.len(),
        search(means, i, j, found, first, second, best),
    ensures
        search(means, i, means.len() as int, r.0, r.1, r.2, r.3),
    decreases means.len() - j,
{
    if j == means.len() {
        (found, first, second, best)
    } else {
        lemma_search_step(means, i, j, found, first, second, best);
        let s = closeness(means, i, j);
        if best.lt(s) {
            lemma_searched_row(means, i, j + 1, true, i, j, s)
        } else {
            lemma_searched_row(means, i, j + 1, found, first, second, best)
        }
    }
}

/// Grouping stops only where it has to: there are at most four conditions, and
/// where there are more than one for every four anchors, no two of them are
/// alike up to 0.70.
pub proof fn law_alike_conditions_are_merged(anchors: Seq<Seq<Binary32>>, a: int, b: int)
    requires
        0 <= a < b < conditions(anchors).len(),
        conditions(anchors).len() > anchors.len() / 4,
    ensures
        conditions(anchors).len() <= 4,
        !(Binary32 { bits: 0x3f33_3333 }).le(cosine(conditions(anchors)[a], conditions(anchors)[b])),
{
    let groups = singletons(anchors);
    lemma_settled_len(groups, budget(anchors.len()));
    lemma_settled_apart(groups, budget(anchors.len()));
    let means = conditions(anchors);
    let top = Binary32 { bits: 0x3f33_3333 };
    let s = cosine(means[a], means[b]);
    if top.le(s) {
        assert(vectors::lowest().lt(s)) by {
            reveal(Binary32::le);
            reveal(Binary32::lt);
            crate::binary32::lemma_format();
            let f = crate::binary32::format();
            crate::binary::lemma_order(f, 0, f.top);
        }
        law_merged_groups_are_the_closest(means, a, b);
        let (i, j) = closest_pair(means);
        let (p, q) = lemma_some_closest(means, a, b);
        lemma_closest_unique(means, p, q);
        let t = closeness(means, i, j);
        assert(!s.nan() && !t.nan()) by {
            reveal(Binary32::le);
        }
        crate::binary32::lemma_total(t, top, top);
        crate::binary32::lemma_total(top, s, t);
        assert(same_condition(means));
    }
}

proof fn lemma_settled_apart(groups: Seq<Seq<Seq<Binary32>>>, budget: nat)
    requires
        budget >= 1,
    ensures
        ({
            let r = settled(groups, budget);
            r.len() <= budget || !same_condition(representatives(r))
        }),
    decreases groups.len(),
{
    let means = representatives(groups);
    if groups.len() > budget {
        lemma_pair(means);
        let (i, j) = closest_pair(means);
        if same_condition(means) || groups.len() > MAX_CONDITION_GROUPS {
            lemma_settled_apart(merged(groups, i, j), budget);
        }
    }
}

/// Grouping does not go on for too long either: four anchors are enough for a
/// condition of their own to be kept, up to four of them.
pub proof fn law_enough_conditions_are_kept(anchors: Seq<Seq<Binary32>>)
    ensures
        anchors.len() > 0 ==> conditions(anchors).len() >= 1,
        anchors.len() / 4 <= 4 ==> conditions(anchors).len() >= anchors.len() / 4,
        anchors.len() / 4 > 4 ==> conditions(anchors).len() == 4,
{
    law_conditions_capped(anchors);
    lemma_settled_least(singletons(anchors), budget(anchors.len()));
}

proof fn lemma_settled_least(groups: Seq<Seq<Seq<Binary32>>>, budget: nat)
    requires
        budget >= 1,
    ensures
        settled(groups, budget).len() >= groups.len() || settled(groups, budget).len() >= budget,
    decreases groups.len(),
{
    let means = representatives(groups);
    if groups.len() > budget {
        lemma_pair(means);
        let (i, j) = closest_pair(means);
        if same_condition(means) || groups.len() > MAX_CONDITION_GROUPS {
            lemma_settled_least(merged(groups, i, j), budget);
        }
    }
}

/// Merging two groups appends the later one's anchors to the earlier one's, and
/// touches no other group.
pub proof fn law_merging_appends(groups: Seq<Seq<Seq<Binary32>>>, i: int, j: int, k: int)
    requires
        0 <= i < j < groups.len(),
        0 <= k < groups.len() - 1,
    ensures
        merged(groups, i, j).len() == groups.len() - 1,
        merged(groups, i, j)[i].take(groups[i].len() as int) == groups[i],
        merged(groups, i, j)[i].skip(groups[i].len() as int) == groups[j],
        k != i ==> merged(groups, i, j)[k] == groups[if k < j {
            k
        } else {
            k + 1
        }],
{
    let g = merged(groups, i, j)[i];
    assert(g == groups[i] + groups[j]);
    assert(g.take(groups[i].len() as int) =~= groups[i]);
    assert(g.skip(groups[i].len() as int) =~= groups[j]);
}

/// Of pairs that are equally close, the first is the one that is merged.
pub proof fn law_first_of_equal_pairs_is_merged(
    means: Seq<Seq<Binary32>>,
    a: int,
    b: int,
    i: int,
    j: int,
)
    requires
        0 <= a < b < means.len(),
        0 <= i < j < means.len(),
        a < i || a == i && b < j,
        vectors::lowest().lt(cosine(means[a], means[b])),
        cosine(means[a], means[b]) == cosine(means[i], means[j]),
    ensures
        closest_pair(means) != (i, j),
{
    let (x, y) = lemma_some_closest(means, a, b);
    lemma_closest_unique(means, x, y);
    if (x, y) == (i, j) {
        let s = closeness(means, a, b);
        assert(!closeness(means, i, j).le(s));
        assert(!s.nan()) by {
            reveal(Binary32::lt);
        }
        crate::binary32::lemma_total(s, s, s);
    }
}

/// A voice is taken from runtime only where that is allowed and nothing is known
/// of the speaker yet, neither an anchor nor anything learned; it then is the
/// only anchor, with its own pitch, and the rest stays.
pub proof fn law_only_empty_pools_take_a_seed(
    pool: PoolModel,
    emb: Seq<Binary32>,
    f0_mu: Binary32,
    f0_sigma: Binary32,
)
    ensures
        pool.takes_seed() <==> pool.config.allow_bootstrap_from_runtime && pool.anchors.len() == 0
            && pool.evidence is None,
        pool.seeded(emb, f0_mu, f0_sigma).metadata.f0_mu == f0_mu,
        pool.seeded(emb, f0_mu, f0_sigma).metadata.f0_sigma == f0_sigma,
        pool.seeded(emb, f0_mu, f0_sigma).config == pool.config,
        pool.seeded(emb, f0_mu, f0_sigma).evidence == pool.evidence,
        pool.takes_seed() ==> pool.seeded(emb, f0_mu, f0_sigma).anchors == seq![emb]
            && !pool.seeded(emb, f0_mu, f0_sigma).takes_seed(),
{
    let after = pool.seeded(emb, f0_mu, f0_sigma);
    assert(after.takes_seed() ==> after.references().len() == 0);
    assert(after.anchors.len() >= 1);
}

/// What a window is too short for stays as it was learned.
pub proof fn law_short_windows_leave_the_rest(
    rate: Binary32,
    evidence: Seq<Binary32>,
    emb: Seq<Binary32>,
    i: int,
)
    requires
        emb.len() <= i < evidence.len(),
    ensures
        folded(rate, evidence, emb)[i] == evidence[i],
        folded(rate, evidence, emb).len() == evidence.len(),
{
}

/// A saved profile brings back what was learned. One from before that was saved
/// as such brings the windows instead: one of them is taken as it is, several
/// as their mean, and none as nothing.
pub proof fn law_older_profiles_bring_their_windows(p: PoolPayload)
    ensures
        p.evidence matches Some(e) ==> p.carried() == Some(e@),
        p.evidence is None && p.auto_learn@.len() == 0 ==> p.carried() is None,
        p.evidence is None && p.auto_learn@.len() == 1 ==> p.carried() == Some(p.auto_learn@[0]@),
        p.evidence is None && p.auto_learn@.len() > 1 ==> p.carried() is Some
            && p.carried()->0.len() == p.auto_learn@[0]@.len(),
{
}

} // verus!
