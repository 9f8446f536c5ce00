//! Online model of the *other* people heard during a session.
//!
//! A threshold on the similarity to the enrolled profile cannot tell two
//! acoustically close speakers apart. What can is a comparison: a friend's
//! window is far more similar to the friend's other windows than to the
//! enrolled speaker. This module gathers the other speakers it hears into a
//! small set of centroids, and the speaker gate asks the enrolled speaker to win
//! against them by a margin.
//!
//! The failure it must never cause is learning the enrolled speaker and then
//! locking them out:
//!
//! 1. Only rejected audio is learned ([`law_passed_windows_teach_nothing`]).
//! 2. Every centroid is checked against the profile before it is stored
//!    ([`law_guard_vetoes`]).
//! 3. Two agreeing windows, after a run of rejected ones, are needed to open
//!    a cluster ([`law_opening_needs_agreement`]).
//! 4. A cluster that persistently contradicts windows which clear the
//!    threshold on their own is forgotten ([`law_unanimous_conflicts_forget`],
//!    [`law_straddling_owner_recovers`]), while isolated spikes of a real
//!    other speaker leave it standing ([`law_isolated_bursts_keep_clusters`]).
//!
//! The model lives for a session: [`OtherSpeakers::reset`] clears it.

use crate::binary;
use crate::binary32::Binary32;
use crate::gating::cos_similarity;
use crate::gating::cosine;
use crate::gating::similarities;
use crate::vectors;
use vstd::prelude::*;

verus! {

/// Evidence that a conflicting window contributes, against the one unit that
/// every other window cancels. Conflicting windows have to be more than one
/// in three before a cluster is forgotten.
pub const CONFLICT_WEIGHT: u32 = 2;

/// Tuning for [`OtherSpeakers`].
#[derive(Debug, Clone, Copy)]
pub struct OtherSpeakerConfig {
    /// Learn only from windows scoring below `theta_pass * this`.
    pub seed_ceiling_frac: Binary32,
    /// Discard any centroid that scores at or above `theta_pass * this`
    /// against the enrolled profile.
    pub guard_frac: Binary32,
    /// Consecutive below-ceiling windows required before a new cluster may be
    /// opened.
    pub min_run: u32,
    /// Two candidate windows must be at least this similar to each other to
    /// open a cluster together.
    pub agree: Binary32,
    /// A window at least this similar to an existing cluster updates it
    /// instead of opening a new one.
    pub merge: Binary32,
    /// Step for folding a window into the cluster it matched.
    pub eta: Binary32,
    /// Cluster budget; the least-reinforced one is evicted when full. `0`
    /// disables learning and clears any pending seed.
    pub max_clusters: usize,
    /// Unanimously conflicting windows before a cluster is forgotten. Values
    /// below `1` are treated as `1`.
    pub conflict_forget_windows: u32,
}

impl OtherSpeakerConfig {
    /// The tuning in use: ceiling 1.0, guard 0.85, agreement and merging at
    /// 0.45, step 0.2, runs of two, six clusters, three windows to forget.
    pub open spec fn standard() -> OtherSpeakerConfig {
        OtherSpeakerConfig {
            seed_ceiling_frac: Binary32 { bits: 0x3f80_0000 },
            guard_frac: Binary32 { bits: 0x3f59_999a },
            min_run: 2,
            agree: Binary32 { bits: 0x3ee6_6666 },
            merge: Binary32 { bits: 0x3ee6_6666 },
            eta: Binary32 { bits: 0x3e4c_cccd },
            max_clusters: 6,
            conflict_forget_windows: 3,
        }
    }

    /// Windows of unanimous conflict that it takes to forget a cluster.
    pub open spec fn patience(self) -> nat {
        if self.conflict_forget_windows == 0 {
            1
        } else {
            self.conflict_forget_windows as nat
        }
    }

    /// Evidence at which a cluster is forgotten.
    pub open spec fn forget_at(self) -> nat {
        if self.patience() * CONFLICT_WEIGHT > u32::MAX {
            u32::MAX as nat
        } else {
            (self.patience() * CONFLICT_WEIGHT) as nat
        }
    }
}

impl Default for OtherSpeakerConfig {
    fn default() -> (r: Self)
        ensures
            r == OtherSpeakerConfig::standard(),
    {
        OtherSpeakerConfig {
            seed_ceiling_frac: Binary32 { bits: 0x3f80_0000 },
            guard_frac: Binary32 { bits: 0x3f59_999a },
            min_run: 2,
            agree: Binary32 { bits: 0x3ee6_6666 },
            merge: Binary32 { bits: 0x3ee6_6666 },
            eta: Binary32 { bits: 0x3e4c_cccd },
            max_clusters: 6,
            conflict_forget_windows: 3,
        }
    }
}

/// What an [`OtherSpeakers`] holds.
#[verifier::ext_equal]
pub struct OtherModel {
    pub centroids: Seq<Seq<Binary32>>,
    pub counts: Seq<u32>,
    pub run: u32,
    pub pending: Option<Seq<Binary32>>,
    pub conflict: Option<int>,
    pub evidence: u32,
}

impl OtherModel {
    /// Every centroid has a count, and banked evidence is about one of them.
    pub open spec fn valid(self) -> bool {
        &&& self.centroids.len() == self.counts.len()
        &&& self.conflict is None <==> self.evidence == 0
        &&& self.conflict matches Some(i) ==> 0 <= i < self.centroids.len()
    }

    pub open spec fn empty() -> OtherModel {
        OtherModel {
            centroids: Seq::empty(),
            counts: Seq::empty(),
            run: 0,
            pending: None,
            conflict: None,
            evidence: 0,
        }
    }

    pub open spec fn without(self, i: int) -> OtherModel {
        OtherModel {
            centroids: self.centroids.remove(i),
            counts: self.counts.remove(i),
            conflict: None,
            evidence: 0,
            ..self
        }
    }
}

/// The best similarity to any centroid, never below zero.
pub open spec fn best_score(centroids: Seq<Seq<Binary32>>, emb: Seq<Binary32>) -> Binary32 {
    vectors::greatest(vectors::zero(), similarities(centroids, emb), centroids.len())
}

pub open spec fn rank(x: Binary32) -> int {
    binary::rank(x.parts())
}

/// `i` is the centroid most similar to `emb`; of several, the last.
pub open spec fn is_match(centroids: Seq<Seq<Binary32>>, emb: Seq<Binary32>, i: int) -> bool {
    let s = similarities(centroids, emb);
    &&& 0 <= i < s.len()
    &&& forall|j: int| 0 <= j <= i ==> rank(#[trigger] s[j]) <= rank(s[i])
    &&& forall|j: int| i < j < s.len() ==> rank(#[trigger] s[j]) < rank(s[i])
}

/// The centroid most similar to `emb`.
pub open spec fn best_match(centroids: Seq<Seq<Binary32>>, emb: Seq<Binary32>) -> int {
    choose|i: int| is_match(centroids, emb, i)
}

proof fn lemma_match(centroids: Seq<Seq<Binary32>>, emb: Seq<Binary32>, i: int)
    requires
        is_match(centroids, emb, i),
    ensures
        best_match(centroids, emb) == i,
{
    let s = similarities(centroids, emb);
    let j = best_match(centroids, emb);
    assert(is_match(centroids, emb, j));
    if i < j {
        assert(rank(s[j]) < rank(s[i]));
        assert(rank(s[i]) <= rank(s[j]));
    } else if j < i {
        assert(rank(s[i]) < rank(s[j]));
        assert(rank(s[j]) <= rank(s[i]));
    }
}

/// `i` is the least reinforced centroid; of several, the first.
pub open spec fn is_weakest(counts: Seq<u32>, i: int) -> bool {
    &&& 0 <= i < counts.len()
    &&& forall|j: int| 0 <= j < i ==> #[trigger] counts[j] > counts[i]
    &&& forall|j: int| i <= j < counts.len() ==> #[trigger] counts[j] >= counts[i]
}

/// The least reinforced centroid.
pub open spec fn weakest(counts: Seq<u32>) -> int {
    choose|i: int| is_weakest(counts, i)
}

proof fn lemma_weakest(counts: Seq<u32>, i: int)
    requires
        is_weakest(counts, i),
    ensures
        weakest(counts) == i,
{
    let j = weakest(counts);
    assert(is_weakest(counts, j));
    if i < j {
        assert(counts[i] > counts[j]);
        assert(counts[j] >= counts[i]);
    } else if j < i {
        assert(counts[j] > counts[i]);
        assert(counts[i] >= counts[j]);
    }
}

/// Session-scoped centroids of the non-enrolled speakers heard so far.
#[derive(Debug, Clone)]
pub struct OtherSpeakers {
    centroids: Vec<Vec<Binary32>>,
    /// Reinforcement count per centroid, used to pick an eviction victim.
    counts: Vec<u32>,
    /// Consecutive below-ceiling windows seen, and the previous one: a new
    /// cluster needs two that agree.
    run: u32,
    pending: Option<Vec<Binary32>>,
    /// Which cluster the accumulated contradiction is about, and how much of
    /// it there is. Indices are positional, so whatever removes a centroid
    /// clears this.
    conflict_cluster: Option<usize>,
    conflict_evidence: u32,
}

impl View for OtherSpeakers {
    type V = OtherModel;

    closed spec fn view(&self) -> OtherModel {
        OtherModel {
            centroids: vectors::rows(self.centroids@),
            counts: self.counts@,
            run: self.run,
            pending: vectors::optional(self.pending),
            conflict: match self.conflict_cluster {
                Some(i) => Some(i as int),
                None => None,
            },
            evidence: self.conflict_evidence,
        }
    }
}

impl Default for OtherSpeakers {
    fn default() -> (r: Self)
        ensures
            r@ == OtherModel::empty(),
            r@.valid(),
    {
        OtherSpeakers::new()
    }
}

impl OtherSpeakers {
    /// A model that knows nobody.
    pub fn new() -> (r: Self)
        ensures
            r@ == OtherModel::empty(),
            r@.valid(),
    {
        let r: OtherSpeakers = OtherSpeakers {
            centroids: Vec::new(),
            counts: Vec::new(),
            run: 0,
            pending: None,
            conflict_cluster: None,
            conflict_evidence: 0,
        };
        assert(r@ =~= OtherModel::empty());
        r
    }

    /// Number of distinct other speakers currently modelled.
    pub fn len(&self) -> (n: usize)
        ensures
            n == self@.centroids.len(),
    {
        self.centroids.len()
    }

    pub fn is_empty(&self) -> (r: bool)
        ensures
            r == (self@.centroids.len() == 0),
    {
        self.centroids.len() == 0
    }

    /// Forget every other speaker. Called when a session starts.
    pub fn reset(&mut self)
        ensures
            final(self)@ == OtherModel::empty(),
            final(self)@.valid(),
    {
        self.centroids.clear();
        self.counts.clear();
        self.run = 0;
        self.pending = None;
        self.forget_conflict();
        assert(self@ =~= OtherModel::empty());
    }

    /// Drop the accumulated contradiction.
    fn forget_conflict(&mut self)
        ensures
            final(self)@ == (OtherModel { conflict: None, evidence: 0, ..old(self)@ }),
    {
        self.conflict_cluster = None;
        self.conflict_evidence = 0;
    }

    /// Best cosine similarity between `emb` and any known other speaker, or
    /// `0.0` when none are known yet.
    pub fn score(&self, emb: &[Binary32]) -> (r: Binary32)
        ensures
            r == best_score(self@.centroids, emb@),
    {
        let mut best: Binary32 = Binary32 { bits: 0 };
        let mut i: usize = 0;
        let ghost s = similarities(self@.centroids, emb@);
        while i < self.centroids.len()
            invariant
                i <= self.centroids.len(),
                s == similarities(self@.centroids, emb@),
                best == vectors::greatest(vectors::zero(), s, i as nat),
            decreases self.centroids.len() - i,
        {
            best = best.maximum(cos_similarity(emb, self.centroids[i].as_slice()));
            i = i + 1;
        }
        best
    }

    /// The centroid most similar to `emb` and that similarity, if there is
    /// one.
    fn closest(&self, emb: &[Binary32]) -> (r: Option<(usize, Binary32)>)
        ensures
            r is None <==> self@.centroids.len() == 0,
            r matches Some((i, s)) ==> i < self@.centroids.len() && i == best_match(
                self@.centroids,
                emb@,
            ) && s == cosine(emb@, self@.centroids[i as int]),
    {
        if self.centroids.len() == 0 {
            return None;
        }
        let ghost s = similarities(self@.centroids, emb@);
        let mut best: Binary32 = cos_similarity(emb, self.centroids[0].as_slice());
        let mut at: usize = 0;
        let mut i: usize = 1;
        while i < self.centroids.len()
            invariant
                1 <= i <= self.centroids.len(),
                at < i,
                s == similarities(self@.centroids, emb@),
                s.len() == self.centroids.len(),
                best == s[at as int],
                forall|j: int| 0 <= j <= at ==> rank(#[trigger] s[j]) <= rank(best),
                forall|j: int| at < j < i ==> rank(#[trigger] s[j]) < rank(best),
            decreases self.centroids.len() - i,
        {
            let c: Binary32 = cos_similarity(emb, self.centroids[i].as_slice());
            if !c.ranks_below(best) {
                best = c;
                at = i;
            }
            i = i + 1;
        }
        proof {
            lemma_match(self@.centroids, emb@, at as int);
        }
        Some((at, best))
    }
}

/// One window as the speaker gate sees it: its embedding and its score against the
/// enrolled profile.
pub struct Window {
    pub embedding: Seq<Binary32>,
    pub target: Binary32,
}

/// The cluster that is the sole reason for refusing a window: the enrolled
/// speaker clears the threshold, and only the margin stands in the way.
pub open spec fn contradicted(
    centroids: Seq<Seq<Binary32>>,
    w: Window,
    theta: Binary32,
    margin: Binary32,
) -> Option<int> {
    let i = best_match(centroids, w.embedding);
    if centroids.len() > 0 && theta.le(w.target) && w.target.difference(
        cosine(w.embedding, centroids[i]),
    ).lt(margin) {
        Some(i)
    } else {
        None
    }
}

/// Evidence after one more conflict with cluster `i`.
pub open spec fn banked(m: OtherModel, i: int) -> nat {
    if m.conflict != Some(i) {
        CONFLICT_WEIGHT as nat
    } else if m.evidence + CONFLICT_WEIGHT > u32::MAX {
        u32::MAX as nat
    } else {
        (m.evidence + CONFLICT_WEIGHT) as nat
    }
}

/// The model after the speaker gate has scored a window.
pub open spec fn judged(
    m: OtherModel,
    w: Window,
    theta: Binary32,
    margin: Binary32,
    config: OtherSpeakerConfig,
) -> OtherModel {
    if m.centroids.len() == 0 {
        OtherModel { conflict: None, evidence: 0, ..m }
    } else {
        match contradicted(m.centroids, w, theta, margin) {
            None => if m.evidence <= 1 {
                OtherModel { conflict: None, evidence: 0, ..m }
            } else {
                OtherModel { evidence: (m.evidence - 1) as u32, ..m }
            },
            Some(i) => if banked(m, i) < config.forget_at() {
                OtherModel { conflict: Some(i), evidence: banked(m, i) as u32, ..m }
            } else {
                m.without(i)
            },
        }
    }
}

/// The score that the speaker gate compares the enrolled speaker with.
pub open spec fn gate_score(
    m: OtherModel,
    w: Window,
    theta: Binary32,
    margin: Binary32,
    config: OtherSpeakerConfig,
) -> Binary32 {
    if m.centroids.len() == 0 {
        vectors::zero()
    } else {
        let i = best_match(m.centroids, w.embedding);
        match contradicted(m.centroids, w, theta, margin) {
            Some(j) if banked(m, j) >= config.forget_at() => best_score(
                m.centroids.remove(j),
                w.embedding,
            ),
            _ => cosine(w.embedding, m.centroids[i]).larger(vectors::zero()),
        }
    }
}

impl OtherSpeakers {
    /// Score `emb` for the speaker gate, forgetting a cluster that persistently
    /// conflicts with otherwise valid enrolled-speaker evidence.
    ///
    /// A low target score is no proof that a window came from somebody else:
    /// a new microphone can make the owner miss the enrollment profile
    /// several times and seed a cluster. If later windows clear `theta_pass`
    /// but the same cluster would still block them by `margin`, that counts
    /// against the cluster, and once enough has accumulated it is discarded
    /// and the next-best other score is returned. A window that does not
    /// conflict cancels one unit of the evidence rather than clearing it.
    pub fn score_for_gate(
        &mut self,
        emb: &[Binary32],
        target_score: Binary32,
        theta_pass: Binary32,
        margin: Binary32,
        config: &OtherSpeakerConfig,
    ) -> (r: Binary32)
        requires
            old(self)@.valid(),
        ensures
            final(self)@.valid(),
            final(self)@ == judged(
                old(self)@,
                (Window { embedding: emb@, target: target_score }),
                theta_pass,
                margin,
                *config,
            ),
            r == gate_score(
                old(self)@,
                (Window { embedding: emb@, target: target_score }),
                theta_pass,
                margin,
                *config,
            ),
    {
        let ghost m = self@;
        let ghost w = Window { embedding: emb@, target: target_score };
        let (idx, best) = match self.closest(emb) {
            Some(found) => found,
            None => {
                self.forget_conflict();
                return Binary32 { bits: 0 };
            },
        };
        let conflicts: bool = theta_pass.at_most(target_score) && target_score.minus(best).less(
            margin,
        );
        assert(conflicts == (contradicted(m.centroids, w, theta_pass, margin) is Some));
        if !conflicts {
            self.conflict_evidence = self.conflict_evidence.saturating_sub(1);
            if self.conflict_evidence == 0 {
                self.conflict_cluster = None;
            }
            return best.maximum(Binary32 { bits: 0 });
        }
        let same: bool = match self.conflict_cluster {
            Some(i) => i == idx,
            None => false,
        };
        if same {
            self.conflict_evidence = self.conflict_evidence.saturating_add(CONFLICT_WEIGHT);
        } else {
            self.conflict_cluster = Some(idx);
            self.conflict_evidence = CONFLICT_WEIGHT;
        }
        let forget_at: u32 = forget_threshold(config);
        if self.conflict_evidence < forget_at {
            return best.maximum(Binary32 { bits: 0 });
        }
        self.drop_cluster(idx);
        self.score(emb)
    }

    /// Removes a cluster, and with it what was banked against any of them.
    fn drop_cluster(&mut self, i: usize)
        requires
            i < old(self)@.centroids.len(),
            old(self)@.centroids.len() == old(self)@.counts.len(),
        ensures
            final(self)@ == old(self)@.without(i as int),
    {
        let ghost m = self@;
        self.centroids.remove(i);
        self.counts.remove(i);
        self.forget_conflict();
        assert(self@.centroids =~= m.centroids.remove(i as int));
    }
}

/// Evidence at which a cluster is forgotten.
fn forget_threshold(config: &OtherSpeakerConfig) -> (r: u32)
    ensures
        r == config.forget_at(),
{
    let windows: u32 = if config.conflict_forget_windows < 1 {
        1
    } else {
        config.conflict_forget_windows
    };
    if windows > u32::MAX / CONFLICT_WEIGHT {
        u32::MAX
    } else {
        windows * CONFLICT_WEIGHT
    }
}

/// A centroid that a window asks to store.
pub enum Proposal {
    Nothing,
    /// Move centroid `.0` to `.1`.
    Reinforce(int, Seq<Binary32>),
    /// Open a cluster.
    Open(Seq<Binary32>),
}

impl Proposal {
    /// The centroid to be checked against the profile.
    pub open spec fn candidate(self) -> Seq<Binary32> {
        match self {
            Proposal::Nothing => Seq::empty(),
            Proposal::Reinforce(_, c) => c,
            Proposal::Open(c) => c,
        }
    }
}

/// A window that nothing may be learned from: learning is off, or the window
/// does not score below the ceiling.
pub open spec fn not_learnable(w: Window, theta: Binary32, config: OtherSpeakerConfig) -> bool {
    config.max_clusters == 0 || theta.product(config.seed_ceiling_frac).le(w.target)
}

/// The run of below-ceiling windows, this one included.
pub open spec fn extended_run(m: OtherModel) -> u32 {
    if m.run == u32::MAX {
        u32::MAX
    } else {
        (m.run + 1) as u32
    }
}

/// The window belongs to the cluster most similar to it.
pub open spec fn belongs(m: OtherModel, w: Window, config: OtherSpeakerConfig) -> bool {
    m.centroids.len() > 0 && config.merge.le(
        cosine(w.embedding, m.centroids[best_match(m.centroids, w.embedding)]),
    )
}

/// The window and the one before it agree.
pub open spec fn agrees(m: OtherModel, w: Window, config: OtherSpeakerConfig) -> bool {
    m.pending matches Some(prev) && config.agree.le(cosine(prev, w.embedding))
}

/// The middle of two windows.
pub open spec fn midpoint(a: Seq<Binary32>, b: Seq<Binary32>) -> Seq<Binary32> {
    Seq::new(
        vectors::overlap(a, b),
        |i: int| (Binary32 { bits: vectors::HALF }).product(a[i].sum(b[i])),
    )
}

/// What a window asks to store.
pub open spec fn proposed(
    m: OtherModel,
    w: Window,
    theta: Binary32,
    config: OtherSpeakerConfig,
) -> Proposal {
    if not_learnable(w, theta, config) {
        Proposal::Nothing
    } else if belongs(m, w, config) {
        let i = best_match(m.centroids, w.embedding);
        Proposal::Reinforce(
            i,
            vectors::mix(
                vectors::one().difference(config.eta),
                m.centroids[i],
                config.eta,
                w.embedding,
            ),
        )
    } else if extended_run(m) >= config.min_run && agrees(m, w, config) {
        Proposal::Open(midpoint(m.pending->0, w.embedding))
    } else {
        Proposal::Nothing
    }
}

/// The model once a window is counted, whether or not its proposal is
/// accepted.
pub open spec fn counted(
    m: OtherModel,
    w: Window,
    theta: Binary32,
    config: OtherSpeakerConfig,
) -> OtherModel {
    if not_learnable(w, theta, config) {
        OtherModel { run: 0, pending: None, ..m }
    } else {
        let n = OtherModel { run: extended_run(m), ..m };
        if belongs(m, w, config) || n.run < config.min_run {
            n
        } else if agrees(m, w, config) {
            OtherModel { pending: None, ..n }
        } else {
            OtherModel { pending: Some(w.embedding), ..n }
        }
    }
}

/// The model with a proposal stored.
pub open spec fn stored(m: OtherModel, p: Proposal, config: OtherSpeakerConfig) -> OtherModel {
    match p {
        Proposal::Nothing => m,
        Proposal::Reinforce(i, c) => OtherModel {
            centroids: m.centroids.update(i, c),
            counts: m.counts.update(
                i,
                if m.counts[i] == u32::MAX {
                    u32::MAX
                } else {
                    (m.counts[i] + 1) as u32
                },
            ),
            ..m
        },
        Proposal::Open(c) => {
            let n = if m.centroids.len() >= config.max_clusters {
                m.without(weakest(m.counts))
            } else {
                m
            };
            OtherModel { centroids: n.centroids.push(c), counts: n.counts.push(2), ..n }
        },
    }
}

/// The score that a stored centroid must stay below.
pub open spec fn guard(theta: Binary32, config: OtherSpeakerConfig) -> Binary32 {
    theta.product(config.guard_frac)
}

/// The model after a window whose proposal scores `answer` against the
/// enrolled profile.
pub open spec fn observed(
    m: OtherModel,
    w: Window,
    theta: Binary32,
    config: OtherSpeakerConfig,
    answer: Binary32,
) -> OtherModel {
    let n = counted(m, w, theta, config);
    if answer.lt(guard(theta, config)) {
        stored(n, proposed(m, w, theta, config), config)
    } else {
        n
    }
}

impl OtherSpeakers {
    /// Fold one identity window into the model.
    ///
    /// `target_score` is that window's score against the enrolled profile and
    /// `theta_pass` the speaker gate's pass threshold, so the model only ever learns
    /// from audio that the speaker gate is already rejecting. `profile_score` scores
    /// a candidate centroid against the enrolled profile: it is the guard
    /// that stops a centroid drifting onto the enrolled speaker, so it must
    /// be the scoring function that the speaker gate uses. It is asked once where
    /// there is a proposal, about that, and otherwise not at all.
    pub fn observe<F>(
        &mut self,
        emb: &[Binary32],
        target_score: Binary32,
        theta_pass: Binary32,
        config: &OtherSpeakerConfig,
        profile_score: F,
    ) where F: FnOnce(&[Binary32]) -> Binary32
        requires
            old(self)@.valid(),
            ({
                let w = Window { embedding: emb@, target: target_score };
                let p = proposed(old(self)@, w, theta_pass, *config);
                p !is Nothing ==> forall|c: &[Binary32]|
                    c@ == p.candidate() ==> #[trigger] profile_score.requires((c,))
            }),
        ensures
            final(self)@.valid(),
            ({
                let w = Window { embedding: emb@, target: target_score };
                let p = proposed(old(self)@, w, theta_pass, *config);
                if p is Nothing {
                    final(self)@ == counted(old(self)@, w, theta_pass, *config)
                } else {
                    exists|c: &[Binary32], answer: Binary32|
                        c@ == p.candidate() && #[trigger] profile_score.ensures((c,), answer)
                            && final(self)@ == observed(
                            old(self)@,
                            w,
                            theta_pass,
                            *config,
                            answer,
                        )
                }
            }),
    {
        let ghost m = self@;
        let ghost w = Window { embedding: emb@, target: target_score };
        if config.max_clusters == 0 || theta_pass.times(config.seed_ceiling_frac).at_most(
            target_score,
        ) {
            self.run = 0;
            self.pending = None;
            return;
        }
        self.run = self.run.saturating_add(1);
        let guard: Binary32 = theta_pass.times(config.guard_frac);
        assert(self@ =~= OtherModel { run: extended_run(m), ..m });
        match self.closest(emb) {
            Some((idx, best)) => {
                if config.merge.at_most(best) {
                    let keep: Binary32 = Binary32 { bits: vectors::ONE }.minus(config.eta);
                    let updated: Vec<Binary32> = vectors::blend(
                        keep,
                        self.centroids[idx].as_slice(),
                        config.eta,
                        emb,
                    );
                    let candidate: &[Binary32] = updated.as_slice();
                    let answer: Binary32 = profile_score(candidate);
                    let ghost c = updated@;
                    proof {
                        let p = proposed(m, w, theta_pass, *config);
                        assert(candidate@ == p.candidate());
                        assert(profile_score.ensures((candidate,), answer));
                    }
                    if answer.less(guard) {
                        self.centroids.set(idx, updated);
                        let n: u32 = self.counts[idx].saturating_add(1);
                        self.counts.set(idx, n);
                        assert(self@.centroids =~= m.centroids.update(idx as int, c));
                    }
                    return;
                }
            },
            None => {},
        }
        if self.run < config.min_run {
            return;
        }
        let pending: Option<Vec<Binary32>> = self.pending.take();
        match pending {
            Some(prev) => {
                if config.agree.at_most(cos_similarity(prev.as_slice(), emb)) {
                    let seed: Vec<Binary32> = middle(prev.as_slice(), emb);
                    let candidate: &[Binary32] = seed.as_slice();
                    let answer: Binary32 = profile_score(candidate);
                    proof {
                        let p = proposed(m, w, theta_pass, *config);
                        assert(candidate@ == p.candidate());
                        assert(profile_score.ensures((candidate,), answer));
                    }
                    if answer.less(guard) {
                        self.open(seed, config.max_clusters);
                    }
                } else {
                    self.pending = Some(vectors::copy(emb));
                }
            },
            None => {
                self.pending = Some(vectors::copy(emb));
            },
        }
    }

    /// Opens a cluster, in the place of the least reinforced one where the
    /// budget is used up.
    fn open(&mut self, seed: Vec<Binary32>, max_clusters: usize)
        requires
            old(self)@.valid(),
            max_clusters > 0,
        ensures
            forall|config: OtherSpeakerConfig|
                config.max_clusters == max_clusters ==> final(self)@ == #[trigger] stored(
                    old(self)@,
                    Proposal::Open(seed@),
                    config,
                ),
            final(self)@.valid(),
    {
        let ghost m = self@;
        if self.centroids.len() >= max_clusters {
            let mut victim: usize = 0;
            let mut i: usize = 1;
            while i < self.counts.len()
                invariant
                    1 <= i <= self.counts.len(),
                    victim < i,
                    forall|j: int|
                        0 <= j < victim ==> #[trigger] self.counts@[j] > self.counts@[victim as int],
                    forall|j: int|
                        victim <= j < i ==> #[trigger] self.counts@[j]
                            >= self.counts@[victim as int],
                decreases self.counts.len() - i,
            {
                if self.counts[i] < self.counts[victim] {
                    victim = i;
                }
                i = i + 1;
            }
            proof {
                lemma_weakest(m.counts, victim as int);
            }
            self.drop_cluster(victim);
        }
        let ghost n = self@;
        let ghost c = seed@;
        self.centroids.push(seed);
        self.counts.push(2);
        assert(self@.centroids =~= n.centroids.push(c));
        assert(self@ =~= OtherModel { centroids: n.centroids.push(c), counts: n.counts.push(2), ..n });
    }
}

/// The middle of two windows.
fn middle(a: &[Binary32], b: &[Binary32]) -> (r: Vec<Binary32>)
    ensures
        r@ == midpoint(a@, b@),
{
    let n: usize = if a.len() <= b.len() {
        a.len()
    } else {
        b.len()
    };
    let mut r: Vec<Binary32> = Vec::with_capacity(n);
    let mut i: usize = 0;
    while i < n
        invariant
            i <= n,
            n == vectors::overlap(a@, b@),
            r.len() == i,
            forall|k: int| 0 <= k < i ==> r@[k] == midpoint(a@, b@)[k],
        decreases n - i,
    {
        r.push(Binary32 { bits: vectors::HALF }.times(a[i].plus(b[i])));
        i = i + 1;
    }
    assert(r@ =~= midpoint(a@, b@));
    r
}

/// A window that does not score below the ceiling teaches the model nothing:
/// it asks to store no centroid, changes none, and breaks off the run that a
/// new cluster would need.
pub proof fn law_passed_windows_teach_nothing(
    m: OtherModel,
    w: Window,
    theta: Binary32,
    config: OtherSpeakerConfig,
    answer: Binary32,
)
    requires
        theta.product(config.seed_ceiling_frac).le(w.target) || config.max_clusters == 0,
    ensures
        proposed(m, w, theta, config) is Nothing,
        observed(m, w, theta, config, answer) == (OtherModel { run: 0, pending: None, ..m }),
{
}

/// A candidate that does not score below the guard against the enrolled
/// profile is not stored: no centroid moves onto the enrolled speaker.
pub proof fn law_guard_vetoes(
    m: OtherModel,
    w: Window,
    theta: Binary32,
    config: OtherSpeakerConfig,
    answer: Binary32,
)
    requires
        !answer.lt(guard(theta, config)),
    ensures
        observed(m, w, theta, config, answer).centroids == m.centroids,
        observed(m, w, theta, config, answer).counts == m.counts,
{
}

/// A cluster is opened only by a window that follows another rejected one
/// which it agrees with, in a run of at least `min_run`.
pub proof fn law_opening_needs_agreement(
    m: OtherModel,
    w: Window,
    theta: Binary32,
    config: OtherSpeakerConfig,
    answer: Binary32,
)
    requires
        m.valid(),
        proposed(m, w, theta, config) is Open || observed(
            m,
            w,
            theta,
            config,
            answer,
        ).centroids.len() > m.centroids.len(),
    ensures
        extended_run(m) >= config.min_run,
        m.pending matches Some(prev) && config.agree.le(cosine(prev, w.embedding)),
        !belongs(m, w, config),
{
    if m.centroids.len() > 0 {
        lemma_chosen(m, w.embedding);
    }
}

/// After a run is broken off, two more rejected windows are needed before
/// anything can open a cluster: a lone window leaves the centroids alone.
pub proof fn law_lone_windows_open_nothing(
    m: OtherModel,
    passed: Window,
    lone: Window,
    theta: Binary32,
    config: OtherSpeakerConfig,
    first: Binary32,
    second: Binary32,
)
    requires
        m.valid(),
        not_learnable(passed, theta, config),
    ensures
        ({
            let n = observed(m, passed, theta, config, first);
            let last = observed(n, lone, theta, config, second);
            last.centroids.len() == m.centroids.len()
        }),
{
    let n = observed(m, passed, theta, config, first);
    assert(n == OtherModel { run: 0, pending: None, ..m });
    assert(!agrees(n, lone, config));
    if n.centroids.len() > 0 {
        lemma_chosen(n, lone.embedding);
    }
}

/// Learning never exceeds the cluster budget.
pub proof fn law_budget_kept(
    m: OtherModel,
    w: Window,
    theta: Binary32,
    config: OtherSpeakerConfig,
    answer: Binary32,
)
    requires
        m.valid(),
        m.centroids.len() <= config.max_clusters,
    ensures
        observed(m, w, theta, config, answer).valid(),
        observed(m, w, theta, config, answer).centroids.len() <= config.max_clusters,
{
    lemma_observed_valid(m, w, theta, config, answer);
    if m.centroids.len() > 0 {
        lemma_chosen(m, w.embedding);
    }
}

proof fn lemma_least(counts: Seq<u32>, n: nat) -> (i: int)
    requires
        0 < n <= counts.len(),
    ensures
        is_weakest(counts.take(n as int), i),
    decreases n,
{
    if n == 1 {
        0
    } else {
        let before = counts.take(n - 1);
        let all = counts.take(n as int);
        let i = lemma_least(counts, (n - 1) as nat);
        assert forall|j: int| 0 <= j < n - 1 implies before[j] == all[j] by {}
        if counts[n - 1] < counts[i] {
            assert forall|j: int| 0 <= j < n - 1 implies #[trigger] all[j] > all[n - 1] by {
                assert(before[j] >= before[i]);
            }
            n - 1
        } else {
            assert forall|j: int| 0 <= j < i implies #[trigger] all[j] > all[i] by {
                assert(before[j] > before[i]);
            }
            assert forall|j: int| i <= j < n implies #[trigger] all[j] >= all[i] by {
                if j < n - 1 {
                    assert(before[j] >= before[i]);
                }
            }
            i
        }
    }
}

proof fn lemma_best(centroids: Seq<Seq<Binary32>>, emb: Seq<Binary32>, n: nat) -> (i: int)
    requires
        0 < n <= centroids.len(),
    ensures
        is_match(centroids.take(n as int), emb, i),
    decreases n,
{
    let s = similarities(centroids.take(n as int), emb);
    if n == 1 {
        0
    } else {
        let t = similarities(centroids.take(n - 1), emb);
        let i = lemma_best(centroids, emb, (n - 1) as nat);
        assert forall|j: int| 0 <= j < n - 1 implies s[j] == t[j] by {}
        if rank(s[n - 1]) >= rank(s[i]) {
            assert forall|j: int| 0 <= j <= n - 1 implies rank(#[trigger] s[j]) <= rank(s[n - 1]) by {
                if j < n - 1 {
                    assert(rank(t[j]) <= rank(t[i]));
                }
            }
            n - 1
        } else {
            assert forall|j: int| 0 <= j <= i implies rank(#[trigger] s[j]) <= rank(s[i]) by {
                assert(rank(t[j]) <= rank(t[i]));
            }
            assert forall|j: int| i < j < n implies rank(#[trigger] s[j]) < rank(s[i]) by {
                if j < n - 1 {
                    assert(rank(t[j]) < rank(t[i]));
                }
            }
            i
        }
    }
}

/// There is a most similar and a least reinforced cluster wherever there is
/// one at all.
proof fn lemma_chosen(m: OtherModel, emb: Seq<Binary32>)
    requires
        m.valid(),
        m.centroids.len() > 0,
    ensures
        0 <= best_match(m.centroids, emb) < m.centroids.len(),
        0 <= weakest(m.counts) < m.counts.len(),
{
    let i = lemma_best(m.centroids, emb, m.centroids.len());
    assert(m.centroids.take(m.centroids.len() as int) =~= m.centroids);
    lemma_match(m.centroids, emb, i);
    let j = lemma_least(m.counts, m.counts.len());
    assert(m.counts.take(m.counts.len() as int) =~= m.counts);
    lemma_weakest(m.counts, j);
}

proof fn lemma_observed_valid(
    m: OtherModel,
    w: Window,
    theta: Binary32,
    config: OtherSpeakerConfig,
    answer: Binary32,
)
    requires
        m.valid(),
    ensures
        observed(m, w, theta, config, answer).valid(),
{
    if m.centroids.len() > 0 {
        lemma_chosen(m, w.embedding);
    }
}

/// Banked evidence stays with the cluster that it is about: where any is left
/// after a window has been folded in, that cluster stands where it stood, and
/// is unchanged unless the window itself reinforced it.
pub proof fn law_evidence_stays_with_its_cluster(
    m: OtherModel,
    w: Window,
    theta: Binary32,
    config: OtherSpeakerConfig,
    answer: Binary32,
    i: int,
)
    requires
        m.valid(),
        observed(m, w, theta, config, answer).conflict == Some(i),
    ensures
        m.conflict == Some(i),
        observed(m, w, theta, config, answer).evidence == m.evidence,
        observed(m, w, theta, config, answer).centroids[i] == m.centroids[i] || proposed(
            m,
            w,
            theta,
            config,
        ) == Proposal::Reinforce(i, observed(m, w, theta, config, answer).centroids[i]),
{
    if m.centroids.len() > 0 {
        lemma_chosen(m, w.embedding);
    }
}

/// The model after the speaker gate has scored the first `n` windows.
pub open spec fn judged_all(
    m: OtherModel,
    windows: Seq<Window>,
    n: nat,
    theta: Binary32,
    margin: Binary32,
    config: OtherSpeakerConfig,
) -> OtherModel
    decreases n,
{
    if n == 0 {
        m
    } else {
        judged(
            judged_all(m, windows, (n - 1) as nat, theta, margin, config),
            windows[n - 1],
            theta,
            margin,
            config,
        )
    }
}

/// A cluster against which nothing is banked is forgotten by exactly
/// `conflict_forget_windows` windows that all conflict with it, and by none
/// sooner: a mislearned owner is not locked out for longer than that.
pub proof fn law_unanimous_conflicts_forget(
    m: OtherModel,
    windows: Seq<Window>,
    theta: Binary32,
    margin: Binary32,
    config: OtherSpeakerConfig,
    i: int,
)
    requires
        m.valid(),
        m.conflict != Some(i),
        config.patience() * CONFLICT_WEIGHT <= u32::MAX,
        windows.len() == config.patience(),
        forall|k: int|
            0 <= k < windows.len() ==> contradicted(
                m.centroids,
                #[trigger] windows[k],
                theta,
                margin,
            ) == Some(i),
    ensures
        judged_all(m, windows, windows.len(), theta, margin, config) == m.without(i),
        forall|k: nat|
            k < windows.len() ==> (#[trigger] judged_all(
                m,
                windows,
                k,
                theta,
                margin,
                config,
            )).centroids == m.centroids,
{
    assert forall|k: nat| k < windows.len() implies (#[trigger] judged_all(
        m,
        windows,
        k,
        theta,
        margin,
        config,
    )).centroids == m.centroids by {
        lemma_banking(m, windows, k, theta, margin, config, i);
    }
    let n = (windows.len() - 1) as nat;
    lemma_banking(m, windows, n, theta, margin, config, i);
    assert(contradicted(m.centroids, windows[n as int], theta, margin) == Some(i));
}

/// Before its patience runs out a cluster only banks evidence.
proof fn lemma_banking(
    m: OtherModel,
    windows: Seq<Window>,
    n: nat,
    theta: Binary32,
    margin: Binary32,
    config: OtherSpeakerConfig,
    i: int,
)
    requires
        m.valid(),
        m.conflict != Some(i),
        config.patience() * CONFLICT_WEIGHT <= u32::MAX,
        windows.len() == config.patience(),
        n < windows.len(),
        forall|k: int|
            0 <= k < windows.len() ==> contradicted(
                m.centroids,
                #[trigger] windows[k],
                theta,
                margin,
            ) == Some(i),
    ensures
        judged_all(m, windows, n, theta, margin, config) == (if n == 0 {
            m
        } else {
            OtherModel { conflict: Some(i), evidence: (n * CONFLICT_WEIGHT) as u32, ..m }
        }),
    decreases n,
{
    if n > 0 {
        lemma_banking(m, windows, (n - 1) as nat, theta, margin, config, i);
        assert(contradicted(m.centroids, windows[n - 1], theta, margin) == Some(i));
    }
}

/// An owner whose windows clear the threshold only every second time is not
/// blocked for the session either: the cluster in the way is forgotten after
/// less than four times as many windows as unanimous conflict would take.
pub proof fn law_straddling_owner_recovers(
    m: OtherModel,
    windows: Seq<Window>,
    theta: Binary32,
    margin: Binary32,
    config: OtherSpeakerConfig,
    i: int,
)
    requires
        m.valid(),
        m.evidence == 0,
        config.patience() * CONFLICT_WEIGHT <= u32::MAX,
        windows.len() == 4 * config.patience() - 3,
        forall|k: int|
            0 <= k < windows.len() ==> contradicted(
                m.centroids,
                #[trigger] windows[k],
                theta,
                margin,
            ) == (if k % 2 == 0 {
                Some(i)
            } else {
                None
            }),
    ensures
        judged_all(m, windows, windows.len(), theta, margin, config) == m.without(i),
{
    let n = (windows.len() - 1) as nat;
    lemma_straddling(m, windows, n / 2, theta, margin, config, i);
    assert(contradicted(m.centroids, windows[n as int], theta, margin) == Some(i));
}

/// Every conflict followed by its opposite leaves one unit of evidence.
proof fn lemma_straddling(
    m: OtherModel,
    windows: Seq<Window>,
    pairs: nat,
    theta: Binary32,
    margin: Binary32,
    config: OtherSpeakerConfig,
    i: int,
)
    requires
        m.valid(),
        m.evidence == 0,
        config.patience() * CONFLICT_WEIGHT <= u32::MAX,
        2 * pairs < windows.len(),
        pairs < 2 * config.patience() - 1,
        forall|k: int|
            0 <= k < windows.len() ==> contradicted(
                m.centroids,
                #[trigger] windows[k],
                theta,
                margin,
            ) == (if k % 2 == 0 {
                Some(i)
            } else {
                None
            }),
    ensures
        judged_all(m, windows, 2 * pairs, theta, margin, config) == (if pairs == 0 {
            m
        } else {
            OtherModel { conflict: Some(i), evidence: pairs as u32, ..m }
        }),
    decreases pairs,
{
    if pairs > 0 {
        let n = (2 * pairs) as nat;
        lemma_straddling(m, windows, (pairs - 1) as nat, theta, margin, config, i);
        assert(contradicted(m.centroids, windows[n - 2], theta, margin) == Some(i));
        assert(contradicted(m.centroids, windows[n - 1], theta, margin) is None);
        reveal_with_fuel(judged_all, 3);
    }
}

/// Bursts of conflicting windows, shorter than the patience and each followed
/// by at least twice as many that do not conflict, never remove a cluster,
/// however many bursts there are: an impostor's isolated spikes stay blocked.
pub proof fn law_isolated_bursts_keep_clusters(
    m: OtherModel,
    windows: Seq<Window>,
    bursts: nat,
    burst: nat,
    theta: Binary32,
    margin: Binary32,
    config: OtherSpeakerConfig,
)
    requires
        m.valid(),
        m.evidence == 0,
        0 < burst < config.patience(),
        config.patience() * CONFLICT_WEIGHT <= u32::MAX,
        windows.len() == bursts * (3 * burst),
        forall|k: int|
            0 <= k < windows.len() && k % (3 * burst) as int >= burst ==> contradicted(
                m.centroids,
                #[trigger] windows[k],
                theta,
                margin,
            ) is None,
    ensures
        judged_all(m, windows, windows.len(), theta, margin, config) == m,
    decreases bursts,
{
    if bursts > 0 {
        let head = windows.take((bursts - 1) * (3 * burst));
        let n = ((bursts - 1) * (3 * burst)) as nat;
        assert(windows.len() == n + 3 * burst && n >= 0) by (nonlinear_arith)
            requires
                windows.len() == bursts * (3 * burst),
                n == (bursts - 1) * (3 * burst),
                bursts > 0,
        ;
        law_isolated_bursts_keep_clusters(
            m,
            head,
            (bursts - 1) as nat,
            burst,
            theta,
            margin,
            config,
        );
        lemma_judged_prefix(m, windows, head, n, theta, margin, config);
        assert forall|k: int| burst <= k < 3 * burst implies contradicted(
            m.centroids,
            #[trigger] windows[n + k],
            theta,
            margin,
        ) is None by {
            assert((n + k) % (3 * burst) as int == k) by {
                vstd::arithmetic::div_mod::lemma_fundamental_div_mod_converse(
                    n + k,
                    (3 * burst) as int,
                    bursts - 1,
                    k,
                );
            }
        }
        lemma_burst(m, windows, n, burst, (3 * burst) as nat, theta, margin, config);
        assert(judged_all(m, windows, n + 3 * burst, theta, margin, config).evidence == 0);
    } else {
        assert(windows.len() == 0) by (nonlinear_arith)
            requires
                windows.len() == bursts * (3 * burst),
                bursts == 0,
        ;
    }
}

proof fn lemma_judged_prefix(
    m: OtherModel,
    windows: Seq<Window>,
    head: Seq<Window>,
    n: nat,
    theta: Binary32,
    margin: Binary32,
    config: OtherSpeakerConfig,
)
    requires
        n <= head.len() <= windows.len(),
        forall|k: int| 0 <= k < head.len() ==> head[k] == windows[k],
    ensures
        judged_all(m, windows, n, theta, margin, config) == judged_all(
            m,
            head,
            n,
            theta,
            margin,
            config,
        ),
    decreases n,
{
    if n > 0 {
        lemma_judged_prefix(m, windows, head, (n - 1) as nat, theta, margin, config);
    }
}

/// Within a burst the evidence rises by at most two for each window, and then
/// falls by one for each.
proof fn lemma_burst(
    m: OtherModel,
    windows: Seq<Window>,
    start: nat,
    burst: nat,
    n: nat,
    theta: Binary32,
    margin: Binary32,
    config: OtherSpeakerConfig,
)
    requires
        m.valid(),
        m.evidence == 0,
        0 < burst < config.patience(),
        config.patience() * CONFLICT_WEIGHT <= u32::MAX,
        n <= 3 * burst,
        start + 3 * burst <= windows.len(),
        judged_all(m, windows, start, theta, margin, config) == m,
        forall|k: int|
            burst <= k < 3 * burst ==> contradicted(
                m.centroids,
                #[trigger] windows[start + k],
                theta,
                margin,
            ) is None,
    ensures
        ({
            let x = judged_all(m, windows, start + n, theta, margin, config);
            &&& x.valid()
            &&& x.evidence <= 2 * n
            &&& n >= burst ==> x.evidence <= 3 * burst - n
            &&& x == OtherModel { conflict: x.conflict, evidence: x.evidence, ..m }
        }),
    decreases n,
{
    if n > 0 {
        lemma_burst(m, windows, start, burst, (n - 1) as nat, theta, margin, config);
        let x = judged_all(m, windows, (start + n - 1) as nat, theta, margin, config);
        if m.centroids.len() > 0 {
            lemma_chosen(m, windows[start + n - 1].embedding);
        }
        let w = windows[start + n - 1];
        if n > burst {
            assert(contradicted(m.centroids, windows[start + (n - 1)], theta, margin) is None);
        } else if contradicted(m.centroids, w, theta, margin) is Some {
            let i = contradicted(m.centroids, w, theta, margin)->0;
            assert(banked(x, i) <= x.evidence + 2);
            assert(banked(x, i) < config.forget_at());
        }
        assert(judged_all(m, windows, start + n, theta, margin, config) == judged(
            x,
            w,
            theta,
            margin,
            config,
        ));
    }
}

/// One thing that happens to the model in a session.
pub enum Step {
    /// The speaker gate scores a window.
    Judge { window: Window, theta: Binary32, margin: Binary32 },
    /// A window is folded in.
    Observe { window: Window, theta: Binary32 },
    /// Everything is forgotten.
    Reset,
}

/// The model after one step, where `profile` scores embeddings against the
/// enrolled profile.
pub open spec fn stepped(
    m: OtherModel,
    step: Step,
    profile: spec_fn(Seq<Binary32>) -> Binary32,
    config: OtherSpeakerConfig,
) -> OtherModel {
    match step {
        Step::Judge { window, theta, margin } => judged(m, window, theta, margin, config),
        Step::Observe { window, theta } => observed(
            m,
            window,
            theta,
            config,
            profile(proposed(m, window, theta, config).candidate()),
        ),
        Step::Reset => OtherModel::empty(),
    }
}

/// A fresh model after a history of steps.
pub open spec fn lived(
    steps: Seq<Step>,
    profile: spec_fn(Seq<Binary32>) -> Binary32,
    config: OtherSpeakerConfig,
) -> OtherModel
    decreases steps.len(),
{
    if steps.len() == 0 {
        OtherModel::empty()
    } else {
        stepped(lived(steps.drop_last(), profile, config), steps.last(), profile, config)
    }
}

/// Every centroid scores below the guard.
pub open spec fn guarded(
    m: OtherModel,
    theta: Binary32,
    profile: spec_fn(Seq<Binary32>) -> Binary32,
    config: OtherSpeakerConfig,
) -> bool {
    forall|i: int|
        0 <= i < m.centroids.len() ==> profile(#[trigger] m.centroids[i]).lt(guard(theta, config))
}

/// Whatever a session brings, every centroid that is held scores below the
/// guard against the enrolled profile: the model never comes to stand for the
/// enrolled speaker.
pub proof fn law_centroids_stay_below_the_guard(
    steps: Seq<Step>,
    theta: Binary32,
    profile: spec_fn(Seq<Binary32>) -> Binary32,
    config: OtherSpeakerConfig,
)
    requires
        forall|k: int|
            0 <= k < steps.len() ==> (#[trigger] steps[k] matches Step::Observe { theta: t, .. }
                ==> t == theta),
    ensures
        lived(steps, profile, config).valid(),
        guarded(lived(steps, profile, config), theta, profile, config),
    decreases steps.len(),
{
    if steps.len() > 0 {
        let head = steps.drop_last();
        assert forall|k: int| 0 <= k < head.len() implies (#[trigger] head[k] matches Step::Observe {
            theta: t,
            ..
        } ==> t == theta) by {
            assert(head[k] == steps[k]);
        }
        law_centroids_stay_below_the_guard(head, theta, profile, config);
        let m = lived(head, profile, config);
        let n = lived(steps, profile, config);
        match steps.last() {
            Step::Judge { window, theta: t, margin } => {
                if m.centroids.len() > 0 {
                    lemma_chosen(m, window.embedding);
                }
                assert forall|i: int| 0 <= i < n.centroids.len() implies profile(
                    #[trigger] n.centroids[i],
                ).lt(guard(theta, config)) by {
                    lemma_kept(m, window, t, margin, config, i);
                }
            },
            Step::Observe { window, theta: t } => {
                assert(steps[steps.len() - 1] == steps.last());
                if m.centroids.len() > 0 {
                    lemma_chosen(m, window.embedding);
                }
                let c = proposed(m, window, theta, config).candidate();
                assert forall|i: int| 0 <= i < n.centroids.len() implies profile(
                    #[trigger] n.centroids[i],
                ).lt(guard(theta, config)) by {
                    lemma_stored_or_kept(m, window, theta, config, profile(c), i);
                }
            },
            Step::Reset => {},
        }
    }
}

/// Judging adds no centroid.
proof fn lemma_kept(
    m: OtherModel,
    w: Window,
    theta: Binary32,
    margin: Binary32,
    config: OtherSpeakerConfig,
    i: int,
)
    requires
        m.valid(),
        m.centroids.len() > 0 ==> 0 <= best_match(m.centroids, w.embedding) < m.centroids.len(),
        0 <= i < judged(m, w, theta, margin, config).centroids.len(),
    ensures
        exists|j: int|
            0 <= j < m.centroids.len() && #[trigger] m.centroids[j] == judged(
                m,
                w,
                theta,
                margin,
                config,
            ).centroids[i],
{
    let after = judged(m, w, theta, margin, config).centroids;
    let k = best_match(m.centroids, w.embedding);
    let j = if after != m.centroids && i >= k {
        i + 1
    } else {
        i
    };
    assert(m.centroids[j] == after[i]);
}

/// Every centroid after a window was there before, or is the candidate that
/// scored below the guard.
proof fn lemma_stored_or_kept(
    m: OtherModel,
    w: Window,
    theta: Binary32,
    config: OtherSpeakerConfig,
    answer: Binary32,
    i: int,
)
    requires
        m.valid(),
        m.centroids.len() > 0 ==> 0 <= best_match(m.centroids, w.embedding) < m.centroids.len()
            && 0 <= weakest(m.counts) < m.counts.len(),
        0 <= i < observed(m, w, theta, config, answer).centroids.len(),
    ensures
        ({
            let n = observed(m, w, theta, config, answer);
            let c = proposed(m, w, theta, config).candidate();
            ||| exists|j: int| 0 <= j < m.centroids.len() && #[trigger] m.centroids[j]
                == n.centroids[i]
            ||| n.centroids[i] == c && answer.lt(guard(theta, config))
        }),
{
    let n = observed(m, w, theta, config, answer);
    if !answer.lt(guard(theta, config)) {
        assert(m.centroids[i] == n.centroids[i]);
    } else {
        match proposed(m, w, theta, config) {
            Proposal::Nothing => {
                assert(m.centroids[i] == n.centroids[i]);
            },
            Proposal::Reinforce(k, _) => {
                if i != k {
                    assert(m.centroids[i] == n.centroids[i]);
                }
            },
            Proposal::Open(_) => {
                let full = m.centroids.len() >= config.max_clusters;
                let k = weakest(m.counts);
                if i < n.centroids.len() - 1 {
                    let j = if full && i >= k {
                        i + 1
                    } else {
                        i
                    };
                    assert(m.centroids[j] == n.centroids[i]);
                }
            },
        }
    }
}

/// Among numbers, what ranks no higher is no larger.
proof fn lemma_rank_order(a: Binary32, b: Binary32)
    requires
        !a.nan(),
        !b.nan(),
        rank(a) <= rank(b),
    ensures
        a.le(b),
{
    reveal(Binary32::le);
    crate::binary32::lemma_format();
    let f = crate::binary32::format();
    binary::lemma_order(f, a.parts().pattern, b.parts().pattern);
    binary::lemma_order(f, b.parts().pattern, a.parts().pattern);
    binary::lemma_order(f, 0, a.parts().pattern);
    binary::lemma_order(f, 0, b.parts().pattern);
}

/// The nearest centroid is as similar as any.
proof fn lemma_nearest(centroids: Seq<Seq<Binary32>>, emb: Seq<Binary32>)
    requires
        centroids.len() > 0,
    ensures
        ({
            let i = best_match(centroids, emb);
            &&& 0 <= i < centroids.len()
            &&& forall|j: int|
                0 <= j < centroids.len() && !cosine(emb, centroids[j]).nan() && !cosine(
                    emb,
                    centroids[i],
                ).nan() ==> cosine(emb, #[trigger] centroids[j]).le(cosine(emb, centroids[i]))
        }),
{
    let k = lemma_best(centroids, emb, centroids.len());
    assert(centroids.take(centroids.len() as int) =~= centroids);
    lemma_match(centroids, emb, k);
    let i = best_match(centroids, emb);
    let s = similarities(centroids, emb);
    assert forall|j: int|
        0 <= j < centroids.len() && !cosine(emb, centroids[j]).nan() && !cosine(
            emb,
            centroids[i],
        ).nan() implies cosine(emb, #[trigger] centroids[j]).le(cosine(emb, centroids[i])) by {
        assert(rank(s[j]) <= rank(s[i]));
        lemma_rank_order(s[j], s[i]);
    }
}

/// Every similarity of a window to a centroid is a number.
pub open spec fn comparable(centroids: Seq<Seq<Binary32>>, emb: Seq<Binary32>) -> bool {
    forall|j: int| 0 <= j < centroids.len() ==> !cosine(emb, #[trigger] centroids[j]).nan()
}

/// The enrolled speaker has to win against the nearest of all other speakers:
/// the score that the speaker gate is given is not below zero, not below the
/// similarity of the window to any centroid that is still held, and it is one
/// of those similarities, or zero.
pub proof fn law_gate_score_is_that_of_the_nearest(
    m: OtherModel,
    w: Window,
    theta: Binary32,
    margin: Binary32,
    config: OtherSpeakerConfig,
)
    requires
        m.valid(),
        comparable(m.centroids, w.embedding),
    ensures
        ({
            let held = judged(m, w, theta, margin, config).centroids;
            let g = gate_score(m, w, theta, margin, config);
            &&& vectors::zero().le(g)
            &&& forall|j: int|
                0 <= j < held.len() ==> cosine(w.embedding, #[trigger] held[j]).le(g)
            &&& g == vectors::zero() || exists|j: int|
                0 <= j < held.len() && cosine(w.embedding, #[trigger] held[j]) == g
        }),
{
    let zero = vectors::zero();
    let held = judged(m, w, theta, margin, config).centroids;
    let g = gate_score(m, w, theta, margin, config);
    crate::binary32::lemma_total(zero, zero, zero);
    if m.centroids.len() > 0 {
        lemma_nearest(m.centroids, w.embedding);
        let i = best_match(m.centroids, w.embedding);
        match contradicted(m.centroids, w, theta, margin) {
            Some(j) if banked(m, j) >= config.forget_at() => {
                let rest = m.centroids.remove(j);
                assert(held == rest);
                let s = similarities(rest, w.embedding);
                vectors::law_greatest(zero, s, rest.len());
                assert forall|k: int| 0 <= k < held.len() implies cosine(
                    w.embedding,
                    #[trigger] held[k],
                ).le(g) by {
                    assert(s[k] == cosine(w.embedding, held[k]));
                    let from = if k < j {
                        k
                    } else {
                        k + 1
                    };
                    assert(held[k] == m.centroids[from]);
                }
                if g != zero {
                    let k = choose|k: int| 0 <= k < rest.len() && #[trigger] s[k] == g;
                    assert(cosine(w.embedding, held[k]) == g);
                }
            },
            _ => {
                let c = cosine(w.embedding, m.centroids[i]);
                assert(held == m.centroids);
                crate::binary32::lemma_total(c, zero, zero);
                crate::binary32::lemma_total(zero, c, c);
                crate::binary32::lemma_total(c, c, c);
                assert forall|k: int| 0 <= k < held.len() implies cosine(
                    w.embedding,
                    #[trigger] held[k],
                ).le(g) by {
                    crate::binary32::lemma_total(cosine(w.embedding, held[k]), c, g);
                }
            },
        }
    }
}

/// The score against everybody is not below zero, not below the similarity to
/// any centroid, and one of those similarities, or zero.
pub proof fn law_score_is_that_of_the_nearest(centroids: Seq<Seq<Binary32>>, emb: Seq<Binary32>)
    ensures
        ({
            let g = best_score(centroids, emb);
            &&& vectors::zero().le(g)
            &&& forall|j: int|
                0 <= j < centroids.len() && !cosine(emb, centroids[j]).nan() ==> cosine(
                    emb,
                    #[trigger] centroids[j],
                ).le(g)
            &&& g == vectors::zero() || exists|j: int|
                0 <= j < centroids.len() && cosine(emb, #[trigger] centroids[j]) == g
        }),
{
    let s = similarities(centroids, emb);
    let g = best_score(centroids, emb);
    vectors::law_greatest(vectors::zero(), s, centroids.len());
    assert forall|j: int| 0 <= j < centroids.len() && !cosine(emb, centroids[j]).nan() implies cosine(
        emb,
        #[trigger] centroids[j],
    ).le(g) by {
        assert(s[j] == cosine(emb, centroids[j]));
    }
    if g != vectors::zero() {
        let k = choose|k: int| 0 <= k < centroids.len() && #[trigger] s[k] == g;
        assert(cosine(emb, centroids[k]) == g);
    }
}

/// Judging a window removes at most one cluster, the nearest one, and only where
/// the window clears the threshold on its own and that cluster alone keeps it
/// from the margin. What is learned otherwise stays as it was.
pub proof fn law_only_the_contradicted_cluster_is_forgotten(
    m: OtherModel,
    w: Window,
    theta: Binary32,
    margin: Binary32,
    config: OtherSpeakerConfig,
)
    requires
        m.valid(),
        comparable(m.centroids, w.embedding),
    ensures
        ({
            let n = judged(m, w, theta, margin, config);
            &&& n.valid()
            &&& n.run == m.run && n.pending == m.pending
            &&& n.centroids == m.centroids && n.counts == m.counts || exists|i: int| #[trigger]
                in_the_way(m.centroids, w, theta, margin, i) && n.centroids
                    == m.centroids.remove(i) && n.counts == m.counts.remove(i)
            &&& n.evidence > m.evidence ==> exists|i: int| #[trigger]
                in_the_way(m.centroids, w, theta, margin, i) && n.conflict == Some(i)
        }),
{
    if m.centroids.len() > 0 {
        lemma_nearest(m.centroids, w.embedding);
        let i = best_match(m.centroids, w.embedding);
        if contradicted(m.centroids, w, theta, margin) is Some {
            assert(in_the_way(m.centroids, w, theta, margin, i));
        }
    }
}

/// Cluster `i` is the nearest one, and the only reason to refuse a window that
/// clears the threshold: the window does not win against it by the margin.
pub open spec fn in_the_way(
    centroids: Seq<Seq<Binary32>>,
    w: Window,
    theta: Binary32,
    margin: Binary32,
    i: int,
) -> bool {
    &&& 0 <= i < centroids.len()
    &&& theta.le(w.target)
    &&& w.target.difference(cosine(w.embedding, centroids[i])).lt(margin)
    &&& forall|j: int|
        0 <= j < centroids.len() ==> cosine(w.embedding, #[trigger] centroids[j]).le(
            cosine(w.embedding, centroids[i]),
        )
}

/// A window that a cluster wrongly keeps out counts against that cluster: it is
/// forgotten with this window, or twice as much is banked against it as any
/// other window takes back.
pub proof fn law_conflicts_count_against_the_nearest(
    m: OtherModel,
    w: Window,
    theta: Binary32,
    margin: Binary32,
    config: OtherSpeakerConfig,
    i: int,
)
    requires
        m.valid(),
        comparable(m.centroids, w.embedding),
        in_the_way(m.centroids, w, theta, margin, i),
        forall|j: int|
            0 <= j < m.centroids.len() && j != i ==> cosine(
                w.embedding,
                #[trigger] m.centroids[j],
            ).lt(cosine(w.embedding, m.centroids[i])),
    ensures
        ({
            let n = judged(m, w, theta, margin, config);
            ||| n == m.without(i)
            ||| n.centroids == m.centroids && n.conflict == Some(i) && n.evidence == (
            if m.conflict == Some(i) {
                if m.evidence + 2 > u32::MAX {
                    u32::MAX as int
                } else {
                    m.evidence + 2
                }
            } else {
                2
            })
        }),
{
    lemma_nearest(m.centroids, w.embedding);
    let k = best_match(m.centroids, w.embedding);
    if k != i {
        crate::binary32::lemma_total(
            cosine(w.embedding, m.centroids[k]),
            cosine(w.embedding, m.centroids[i]),
            cosine(w.embedding, m.centroids[i]),
        );
    }
}

/// A window that does not conflict takes back one unit of what is banked, and
/// no cluster goes.
pub proof fn law_other_windows_take_evidence_back(
    m: OtherModel,
    w: Window,
    theta: Binary32,
    margin: Binary32,
    config: OtherSpeakerConfig,
)
    requires
        m.valid(),
        m.centroids.len() > 0,
        !theta.le(w.target) || forall|j: int|
            0 <= j < m.centroids.len() ==> !w.target.difference(
                cosine(w.embedding, #[trigger] m.centroids[j]),
            ).lt(margin),
    ensures
        ({
            let n = judged(m, w, theta, margin, config);
            &&& n.centroids == m.centroids && n.counts == m.counts
            &&& m.evidence > 0 ==> n.evidence == m.evidence - 1
            &&& m.evidence == 0 ==> n.evidence == 0
        }),
{
    lemma_nearest(m.centroids, w.embedding);
}

/// A window below the ceiling that resembles a known speaker moves the nearest
/// centroid, and no other one, toward the window, and counts for it.
pub proof fn law_known_speakers_are_reinforced(
    m: OtherModel,
    w: Window,
    theta: Binary32,
    config: OtherSpeakerConfig,
    answer: Binary32,
    i: int,
)
    requires
        m.valid(),
        config.max_clusters > 0,
        !theta.product(config.seed_ceiling_frac).le(w.target),
        comparable(m.centroids, w.embedding),
        0 <= i < m.centroids.len(),
        config.merge.le(cosine(w.embedding, m.centroids[i])),
        forall|j: int|
            0 <= j < m.centroids.len() && j != i ==> cosine(
                w.embedding,
                #[trigger] m.centroids[j],
            ).lt(cosine(w.embedding, m.centroids[i])),
        answer.lt(theta.product(config.guard_frac)),
        config.eta == vectors::zero() || config.eta == vectors::one(),
        w.embedding.len() == m.centroids[i].len(),
        forall|d: int| 0 <= d < w.embedding.len() ==> (#[trigger] w.embedding[d]).finite(),
        forall|d: int| 0 <= d < w.embedding.len() ==> (#[trigger] m.centroids[i][d]).finite(),
    ensures
        ({
            let n = observed(m, w, theta, config, answer);
            &&& n.centroids.len() == m.centroids.len()
            &&& forall|j: int|
                0 <= j < m.centroids.len() && j != i ==> #[trigger] n.centroids[j]
                    == m.centroids[j] && n.counts[j] == m.counts[j]
            &&& n.counts[i] == (if m.counts[i] == u32::MAX {
                u32::MAX as int
            } else {
                m.counts[i] + 1
            })
            &&& n.centroids[i].len() == w.embedding.len()
            &&& forall|d: int|
                0 <= d < w.embedding.len() ==> (#[trigger] n.centroids[i][d]).units() == (
                if config.eta == vectors::one() {
                    w.embedding[d].units()
                } else {
                    m.centroids[i][d].units()
                })
        }),
{
    lemma_nearest(m.centroids, w.embedding);
    let k = best_match(m.centroids, w.embedding);
    if k != i {
        crate::binary32::lemma_total(
            cosine(w.embedding, m.centroids[k]),
            cosine(w.embedding, m.centroids[i]),
            cosine(w.embedding, m.centroids[i]),
        );
    }
    let n = observed(m, w, theta, config, answer);
    let c = vectors::mix(
        vectors::one().difference(config.eta),
        m.centroids[i],
        config.eta,
        w.embedding,
    );
    assert(n.centroids[i] == c);
    assert forall|d: int| 0 <= d < w.embedding.len() implies (
    #[trigger] n.centroids[i][d]).units() == (if config.eta == vectors::one() {
        w.embedding[d].units()
    } else {
        m.centroids[i][d].units()
    }) by {
        crate::enrollment::lemma_step_ends(m.centroids[i][d], w.embedding[d]);
    }
}

/// Where a window resembles a known speaker, the centroid that is moved is one
/// as similar to it as any, whatever the step is, and no cluster is opened.
pub proof fn law_only_the_nearest_cluster_moves(
    m: OtherModel,
    w: Window,
    theta: Binary32,
    config: OtherSpeakerConfig,
    answer: Binary32,
    i: int,
)
    requires
        m.valid(),
        comparable(m.centroids, w.embedding),
        0 <= i < m.centroids.len(),
        config.merge.le(cosine(w.embedding, m.centroids[i])),
    ensures
        ({
            let n = observed(m, w, theta, config, answer);
            &&& n.centroids.len() == m.centroids.len()
            &&& forall|j: int|
                0 <= j < m.centroids.len() && #[trigger] n.centroids[j] != m.centroids[j] ==> {
                    &&& cosine(w.embedding, m.centroids[i]).le(cosine(w.embedding, m.centroids[j]))
                    &&& answer.lt(theta.product(config.guard_frac))
                    &&& !theta.product(config.seed_ceiling_frac).le(w.target)
                }
        }),
{
    lemma_nearest(m.centroids, w.embedding);
    let k = best_match(m.centroids, w.embedding);
    let c = cosine(w.embedding, m.centroids[k]);
    assert(cosine(w.embedding, m.centroids[i]).le(c));
    assert(config.merge.le(c)) by {
        reveal(Binary32::le);
    }
}

/// Two rejected windows in a row that agree, and that resemble nobody known,
/// open a cluster in their middle, unless that is too close to the enrolled
/// speaker. Where the budget is used up, a least reinforced cluster makes room;
/// otherwise nobody is forgotten for it.
pub proof fn law_agreeing_windows_open_a_cluster(
    m: OtherModel,
    w: Window,
    theta: Binary32,
    config: OtherSpeakerConfig,
    answer: Binary32,
    prev: Seq<Binary32>,
)
    requires
        m.valid(),
        config.max_clusters > 0,
        !theta.product(config.seed_ceiling_frac).le(w.target),
        forall|j: int|
            0 <= j < m.centroids.len() ==> !config.merge.le(
                cosine(w.embedding, #[trigger] m.centroids[j]),
            ),
        m.run + 1 >= config.min_run || m.run == u32::MAX,
        m.pending == Some(prev),
        config.agree.le(cosine(prev, w.embedding)),
        answer.lt(theta.product(config.guard_frac)),
    ensures
        ({
            let n = observed(m, w, theta, config, answer);
            let c = n.centroids.last();
            &&& n.pending is None
            &&& n.counts.last() == 2
            &&& c.len() == vectors::overlap(prev, w.embedding)
            &&& forall|d: int|
                0 <= d < c.len() ==> #[trigger] c[d] == (Binary32 { bits: 0x3f00_0000 }).product(
                    prev[d].sum(w.embedding[d]),
                )
            &&& if m.centroids.len() < config.max_clusters {
                n.centroids.drop_last() == m.centroids && n.counts.drop_last() == m.counts
            } else {
                exists|i: int|
                    0 <= i < m.counts.len() && n.centroids.drop_last() == m.centroids.remove(i)
                        && #[trigger] n.counts.drop_last() == m.counts.remove(i) && forall|j: int|
                        0 <= j < m.counts.len() ==> m.counts[i] <= #[trigger] m.counts[j]
            }
        }),
{
    if m.centroids.len() > 0 {
        lemma_nearest(m.centroids, w.embedding);
        lemma_chosen(m, w.embedding);
    }
    let n = observed(m, w, theta, config, answer);
    assert(proposed(m, w, theta, config) is Open);
    if m.centroids.len() >= config.max_clusters {
        let i = weakest(m.counts);
        let k = lemma_least(m.counts, m.counts.len());
        assert(m.counts.take(m.counts.len() as int) =~= m.counts);
        lemma_weakest(m.counts, k);
        assert(is_weakest(m.counts, i));
        assert(n.centroids.drop_last() =~= m.centroids.remove(i));
        assert(n.counts.drop_last() =~= m.counts.remove(i));
        assert forall|j: int| 0 <= j < m.counts.len() implies m.counts[i] <= #[trigger] m.counts[j] by {
            if j < i {
                assert(m.counts[j] > m.counts[i]);
            }
        }
    } else {
        assert(n.centroids.drop_last() =~= m.centroids);
        assert(n.counts.drop_last() =~= m.counts);
    }
}

/// A rejected window that resembles nobody known and does not agree with the
/// one before it is remembered for the next one, once the run is long enough.
pub proof fn law_unmatched_windows_are_remembered(
    m: OtherModel,
    w: Window,
    theta: Binary32,
    config: OtherSpeakerConfig,
    answer: Binary32,
)
    requires
        m.valid(),
        config.max_clusters > 0,
        !theta.product(config.seed_ceiling_frac).le(w.target),
        forall|j: int|
            0 <= j < m.centroids.len() ==> !config.merge.le(
                cosine(w.embedding, #[trigger] m.centroids[j]),
            ),
        !(m.pending matches Some(prev) && config.agree.le(cosine(prev, w.embedding))),
    ensures
        ({
            let n = observed(m, w, theta, config, answer);
            &&& n.centroids == m.centroids && n.counts == m.counts
            &&& n.run == (if m.run == u32::MAX {
                u32::MAX as int
            } else {
                m.run + 1
            })
            &&& n.pending == (if n.run >= config.min_run {
                Some(w.embedding)
            } else {
                m.pending
            })
        }),
{
    if m.centroids.len() > 0 {
        lemma_nearest(m.centroids, w.embedding);
    }
}

/// The middle of two windows is the same either way round.
pub proof fn law_middle_is_symmetric(a: Seq<Binary32>, b: Seq<Binary32>)
    ensures
        midpoint(a, b) == midpoint(b, a),
{
    assert forall|i: int| 0 <= i < midpoint(a, b).len() implies #[trigger] midpoint(a, b)[i]
        == midpoint(b, a)[i] by {
        reveal(Binary32::sum);
    }
    assert(midpoint(a, b) =~= midpoint(b, a));
}

/// A cluster is forgotten once the conflicts with it, less what other windows
/// took back, make up the windows that are asked for; where none are asked for,
/// one is enough.
pub proof fn law_clusters_are_forgotten_when_patience_ends(
    m: OtherModel,
    w: Window,
    theta: Binary32,
    margin: Binary32,
    config: OtherSpeakerConfig,
    i: int,
)
    requires
        m.valid(),
        m.evidence + 2 <= u32::MAX,
        2 * config.conflict_forget_windows <= u32::MAX,
        comparable(m.centroids, w.embedding),
        in_the_way(m.centroids, w, theta, margin, i),
        forall|j: int|
            0 <= j < m.centroids.len() && j != i ==> cosine(
                w.embedding,
                #[trigger] m.centroids[j],
            ).lt(cosine(w.embedding, m.centroids[i])),
    ensures
        ({
            let had = if m.conflict == Some(i) {
                m.evidence as int
            } else {
                0
            };
            let asked = if config.conflict_forget_windows == 0 {
                1
            } else {
                config.conflict_forget_windows as int
            };
            judged(m, w, theta, margin, config).centroids.len() < m.centroids.len() <==> had + 2 >= 2
                * asked
        }),
{
    law_conflicts_count_against_the_nearest(m, w, theta, margin, config, i);
    lemma_nearest(m.centroids, w.embedding);
    let k = best_match(m.centroids, w.embedding);
    if k != i {
        crate::binary32::lemma_total(
            cosine(w.embedding, m.centroids[k]),
            cosine(w.embedding, m.centroids[i]),
            cosine(w.embedding, m.centroids[i]),
        );
    }
}

/// Of clusters that a window is equally similar to, the newest is taken for the
/// nearest.
pub proof fn law_ties_go_to_the_newest(
    centroids: Seq<Seq<Binary32>>,
    emb: Seq<Binary32>,
    i: int,
    j: int,
)
    requires
        0 <= i < j < centroids.len(),
        cosine(emb, centroids[i]) == cosine(emb, centroids[j]),
    ensures
        best_match(centroids, emb) != i,
        0 <= best_match(centroids, emb) < centroids.len(),
{
    let k = lemma_best(centroids, emb, centroids.len());
    assert(centroids.take(centroids.len() as int) =~= centroids);
    lemma_match(centroids, emb, k);
    let s = similarities(centroids, emb);
    assert(s[i] == s[j]);
}

} // verus!
