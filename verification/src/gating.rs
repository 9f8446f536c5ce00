//! Comparing embeddings, and the thresholds that a gate decides by.

use crate::binary32::Binary32;
use crate::vectors::dot_product;
use crate::vectors;
use vstd::prelude::*;

verus! {

/// Cosine of the angle between two vectors, on the length on which they
/// overlap; zero where one of them has no length.
#[verifier::opaque]
pub open spec fn cosine(a: Seq<Binary32>, b: Seq<Binary32>) -> Binary32 {
    let n = vectors::overlap(a, b);
    let norms = vectors::dot(a, a, n).root().product(vectors::dot(b, b, n).root());
    if norms.le(vectors::zero()) {
        vectors::zero()
    } else {
        vectors::dot(a, b, n).quotient(norms)
    }
}

/// Similarity of an embedding to each of some references.
pub open spec fn similarities(references: Seq<Seq<Binary32>>, emb: Seq<Binary32>) -> Seq<
    Binary32,
> {
    Seq::new(references.len(), |i: int| cosine(emb, references[i]))
}

/// Cosine similarity of two embeddings.
pub fn cos_similarity(a: &[Binary32], b: &[Binary32]) -> (r: Binary32)
    ensures
        r == cosine(a@, b@),
{
    proof {
        reveal(cosine);
    }
    let n: usize = if a.len() <= b.len() {
        a.len()
    } else {
        b.len()
    };
    let norms: Binary32 = squares(a, n).square_root().times(squares(b, n).square_root());
    if norms.at_most(Binary32 { bits: 0 }) {
        Binary32 { bits: 0 }
    } else {
        dot_product(a, b).over(norms)
    }
}

/// Thresholds and timings of the speaker gate.
#[derive(Debug, Clone, Copy, PartialEq, Eq, Structural)]
pub struct GateConfig {
    /// Score at which a window passes.
    pub theta_pass: Binary32,
    /// Whether the threshold follows the recent scores.
    pub adaptive_theta: bool,
    /// Whether scores are normalised against a cohort.
    pub use_as_norm: bool,
    /// How long the speaker gate stays open after the last passing window.
    pub hangover_ms: Binary32,
    /// Score below which the speaker gate closes at once, as a share of `theta_pass`.
    pub hangover_floor_frac: Binary32,
    /// How long the speaker gate takes to close.
    pub release_ms: Binary32,
    /// How long the speaker gate takes to open.
    pub attack_ms: Binary32,
    /// Threshold on the pitch score.
    pub theta_f0: Binary32,
    /// By how much the enrolled speaker has to win against the other ones.
    pub other_speaker_margin: Binary32,
}

/// Sum of the squares of the first `n` elements.
fn squares(a: &[Binary32], n: usize) -> (s: Binary32)
    requires
        n <= a@.len(),
    ensures
        s == vectors::dot(a@, a@, n as nat),
{
    let mut s: Binary32 = Binary32 { bits: 0 };
    let mut i: usize = 0;
    while i < n
        invariant
            i <= n <= a.len(),
            s == vectors::dot(a@, a@, i as nat),
        decreases n - i,
    {
        s = s.plus(a[i].times(a[i]));
        i = i + 1;
    }
    s
}

proof fn lemma_dot_symmetric(a: Seq<Binary32>, b: Seq<Binary32>, n: nat)
    ensures
        vectors::dot(a, b, n) == vectors::dot(b, a, n),
    decreases n,
{
    if n > 0 {
        lemma_dot_symmetric(a, b, (n - 1) as nat);
        crate::binary32::lemma_product_symmetric(a[n - 1], b[n - 1]);
    }
}

/// Two embeddings are as similar to each other either way round.
pub proof fn law_cosine_is_symmetric(a: Seq<Binary32>, b: Seq<Binary32>)
    ensures
        cosine(a, b) == cosine(b, a),
{
    reveal(cosine);
    let n = vectors::overlap(a, b);
    lemma_dot_symmetric(a, b, n);
    crate::binary32::lemma_product_symmetric(
        vectors::dot(a, a, n).root(),
        vectors::dot(b, b, n).root(),
    );
}

/// Only the length that two embeddings share counts.
pub proof fn law_cosine_takes_the_shared_length(a: Seq<Binary32>, b: Seq<Binary32>)
    requires
        a.len() <= b.len(),
    ensures
        cosine(a, b) == cosine(a, b.take(a.len() as int)),
{
    reveal(cosine);
    let c = b.take(a.len() as int);
    lemma_dot_prefix(a, b, a, c, a.len());
    lemma_dot_prefix(b, b, c, c, a.len());
}

/// A sum of products depends on the elements that it takes.
proof fn lemma_dot_prefix(
    a: Seq<Binary32>,
    b: Seq<Binary32>,
    c: Seq<Binary32>,
    d: Seq<Binary32>,
    n: nat,
)
    requires
        forall|i: int| 0 <= i < n ==> a[i] == c[i],
        forall|i: int| 0 <= i < n ==> b[i] == d[i],
    ensures
        vectors::dot(a, b, n) == vectors::dot(c, d, n),
    decreases n,
{
    if n > 0 {
        lemma_dot_prefix(a, b, c, d, (n - 1) as nat);
    }
}

} // verus!
