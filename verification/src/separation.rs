//! Live target-speaker selection on top of two-speaker separation.
//!
//! Input is buffered into one-second blocks, brought down to the model's rate,
//! separated into two anonymous streams, and each stream is scored against the
//! enrolled profile. Only the closer stream goes on, and only where it is
//! close enough.

use crate::audio;
use crate::audio::force_length;
use crate::audio::rms;
use crate::binary32::Binary32;
use crate::enrollment::EmbeddingPool;
use crate::enrollment::PoolModel;
use crate::gating::cos_similarity;
use crate::gating::cosine;
use crate::gating::similarities;
use crate::resample;
use crate::resample::rate_converted;
use crate::resample::resample_in_words;
use crate::resampler;
use crate::sepformer::SEPFORMER_BLOCK_SAMPLES;
use crate::sepformer::SEPFORMER_SAMPLE_RATE;
use crate::text;
use crate::vectors;
use vstd::arithmetic::power2::pow2;
use vstd::prelude::*;
use vstd::string::StringExecFns;

verus! {

/// One second at the live pipeline's rate.
pub const LIVE_BLOCK_SAMPLES: usize = 48_000;

/// Rate that the embedding front-end expects.
pub const ECAPA_SAMPLE_RATE: u32 = 16_000;

/// Samples of one second at that rate.
pub const ECAPA_BLOCK_SAMPLES: usize = 16_000;

/// Level below which a block counts as silence: the bits of `1.0e-5`.
pub const SILENCE_RMS: u32 = 0x3727_c5ac;

/// Score below which both streams are muted: the bits of `0.50`.
pub const MIN_TARGET_SCORE: u32 = 0x3f00_0000;

/// Blocks of a recording that are used for calibration.
pub const MAX_SEPARATOR_ENROLLMENT_BLOCKS: usize = 8;

/// Calibrated embeddings without which a companion profile is refused.
pub const MIN_SEPARATOR_ANCHORS: usize = 4;

/// Level that a stream is brought to before it is scored: the bits of `0.08`.
pub const SCORING_RMS: u32 = 0x3da3_d70a;

/// Bits of `0.01`.
pub const LEAST_GAIN: u32 = 0x3c23_d70a;

/// Bits of `100.0`.
pub const GREATEST_GAIN: u32 = 0x42c8_0000;

/// Bits of `1.0e-9`.
pub const LEAST_RMS: u32 = 0x3089_705f;

/// Separator knobs that can change while a session runs.
#[derive(Debug, Clone, Copy)]
pub struct SeparatorTuning {
    /// Blocks whose best stream score falls below this are muted.
    threshold: Binary32,
    /// Best stream score of the most recently scored block.
    last_best_score: Binary32,
}

impl SeparatorTuning {
    pub closed spec fn limit(self) -> Binary32 {
        self.threshold
    }

    pub closed spec fn last(self) -> Binary32 {
        self.last_best_score
    }

    pub fn new(threshold: Binary32) -> (r: Self)
        ensures
            r.limit() == threshold,
            r.last().bits == 0,
    {
        SeparatorTuning { threshold, last_best_score: Binary32 { bits: 0 } }
    }

    pub fn threshold(&self) -> (r: Binary32)
        ensures
            r == self.limit(),
    {
        self.threshold
    }

    pub fn set_threshold(&mut self, value: Binary32)
        ensures
            final(self).limit() == value,
            final(self).last() == old(self).last(),
    {
        self.threshold = value;
    }

    /// Best stream score of the most recently scored block. `0.0` until the
    /// first non-silent block is processed.
    pub fn last_best_score(&self) -> (r: Binary32)
        ensures
            r == self.last(),
    {
        self.last_best_score
    }

    fn store_last_best_score(&mut self, value: Binary32)
        ensures
            final(self).limit() == old(self).limit(),
            final(self).last() == value,
    {
        self.last_best_score = value;
    }
}

impl Default for SeparatorTuning {
    fn default() -> (r: Self)
        ensures
            r.limit().bits == MIN_TARGET_SCORE,
            r.last().bits == 0,
    {
        SeparatorTuning::new(Binary32 { bits: MIN_TARGET_SCORE })
    }
}

/// A block that is loud enough to be worth a model run.
pub open spec fn loud(s: Seq<Binary32>) -> bool {
    !audio::level(s).lt(Binary32 { bits: SILENCE_RMS })
}

/// Gain that brings a stream to the scoring level.
pub open spec fn scoring_gain(s: Seq<Binary32>) -> Binary32 {
    (Binary32 { bits: SCORING_RMS }).quotient(audio::level(s)).clamped(
        Binary32 { bits: LEAST_GAIN },
        Binary32 { bits: GREATEST_GAIN },
    )
}

/// A stream at the scoring level, within full scale.
pub open spec fn normalised(s: Seq<Binary32>) -> Seq<Binary32> {
    Seq::new(
        s.len(),
        |i: int|
            s[i].product(scoring_gain(s)).clamped(
                Binary32 { bits: audio::MINUS_ONE },
                vectors::one(),
            ),
    )
}

/// Best similarity to an anchor; zero where there is none.
pub open spec fn anchor_score(anchors: Seq<Seq<Binary32>>, emb: Seq<Binary32>) -> Binary32 {
    if anchors.len() == 0 {
        vectors::zero()
    } else {
        vectors::greatest(vectors::lowest(), similarities(anchors, emb), anchors.len())
    }
}

/// One common gain for both streams, such that their energy together matches
/// the mixture.
pub open spec fn common_gain(input: Binary32, a: Seq<Binary32>, b: Seq<Binary32>) -> Binary32 {
    let r0 = audio::level(a);
    let r1 = audio::level(b);
    let together = r0.product(r0).sum(r1.product(r1)).root();
    input.quotient(together.larger(Binary32 { bits: LEAST_RMS })).smaller(
        Binary32 { bits: GREATEST_GAIN },
    )
}

/// The gain with the polarity that is most correlated with the mixture.
pub open spec fn polarised(gain: Binary32, chosen: Seq<Binary32>, mixture: Seq<Binary32>) -> Binary32 {
    if vectors::dot(chosen, mixture, vectors::overlap(chosen, mixture)).lt(vectors::zero()) {
        gain.negation()
    } else {
        gain
    }
}

pub open spec fn amplified(s: Seq<Binary32>, scale: Binary32) -> Seq<Binary32> {
    Seq::new(s.len(), |i: int| s[i].product(scale))
}

/// Every sample times a factor.
fn amplify(s: &[Binary32], scale: Binary32) -> (r: Vec<Binary32>)
    ensures
        r@ == amplified(s@, scale),
{
    let mut r: Vec<Binary32> = Vec::with_capacity(s.len());
    let mut i: usize = 0;
    while i < s.len()
        invariant
            i <= s.len(),
            r.len() == i,
            forall|k: int| 0 <= k < i ==> r@[k] == s@[k].product(scale),
        decreases s.len() - i,
    {
        r.push(s[i].times(scale));
        i = i + 1;
    }
    assert(r@ =~= amplified(s@, scale));
    r
}

/// A stream at the scoring level, within full scale.
pub fn normalise(s: &[Binary32]) -> (r: Vec<Binary32>)
    ensures
        r@ == normalised(s@),
{
    let gain: Binary32 = Binary32 { bits: SCORING_RMS }.over(rms(s)).clamp(
        Binary32 { bits: LEAST_GAIN },
        Binary32 { bits: GREATEST_GAIN },
    );
    let mut r: Vec<Binary32> = Vec::with_capacity(s.len());
    let mut i: usize = 0;
    while i < s.len()
        invariant
            i <= s.len(),
            gain == scoring_gain(s@),
            r.len() == i,
            forall|k: int| 0 <= k < i ==> r@[k] == normalised(s@)[k],
        decreases s.len() - i,
    {
        r.push(
            s[i].times(gain).clamp(
                Binary32 { bits: audio::MINUS_ONE },
                Binary32 { bits: vectors::ONE },
            ),
        );
        i = i + 1;
    }
    assert(r@ =~= normalised(s@));
    r
}

/// Best similarity to an anchor; zero where there is none.
pub fn score_against(anchors: &[Vec<Binary32>], emb: &[Binary32]) -> (r: Binary32)
    ensures
        r == anchor_score(vectors::rows(anchors@), emb@),
{
    if anchors.len() == 0 {
        return Binary32 { bits: 0 };
    }
    let ghost a = vectors::rows(anchors@);
    let ghost s = similarities(a, emb@);
    let mut best: Binary32 = Binary32 { bits: vectors::NEGATIVE_INFINITY };
    let mut i: usize = 0;
    while i < anchors.len()
        invariant
            i <= anchors.len(),
            a == vectors::rows(anchors@),
            s == similarities(a, emb@),
            best == vectors::greatest(vectors::lowest(), s, i as nat),
        decreases anchors.len() - i,
    {
        best = best.maximum(cos_similarity(emb, anchors[i].as_slice()));
        i = i + 1;
    }
    best
}

/// How one anonymous stream matched the enrolled speaker.
#[derive(Debug)]
pub struct StreamMatch {
    /// The stream's embedding, or empty when the stream was silent and never
    /// reached the model.
    pub embedding: Vec<Binary32>,
    /// Best similarity to an enrollment anchor. `0.0` for a silent stream.
    pub score: Binary32,
}

/// A separator may answer `reply` when it is asked about `mixture`.
pub open spec fn split_up<
    S: Fn(&[Binary32]) -> Result<(Vec<Binary32>, Vec<Binary32>), String>,
>(
    separate: S,
    mixture: Seq<Binary32>,
    reply: Result<(Vec<Binary32>, Vec<Binary32>), String>,
) -> bool {
    exists|a: &[Binary32]| a@ == mixture && #[trigger] separate.ensures((a,), reply)
}

/// An embedder may answer `reply` when it is asked about `audio`.
pub open spec fn embedded<E: Fn(&[Binary32]) -> Result<Vec<Binary32>, String>>(
    embed: E,
    audio: Seq<Binary32>,
    reply: Result<Vec<Binary32>, String>,
) -> bool {
    exists|a: &[Binary32]| a@ == audio && #[trigger] embed.ensures((a,), reply)
}

/// What was answered while one stream was scored.
pub struct MatchReplies {
    pub audio: Result<Vec<Binary32>, String>,
    pub embedding: Result<Vec<Binary32>, String>,
}

/// The answers are those to the right questions: a loud stream is normalised,
/// brought to the embedding rate and length, and embedded; a silent one is
/// not asked about.
pub open spec fn match_asked<
    R: Fn(&[Binary32], u32, u32) -> Result<Vec<Binary32>, String>,
    E: Fn(&[Binary32]) -> Result<Vec<Binary32>, String>,
>(resample: R, embed: E, source: Seq<Binary32>, t: MatchReplies) -> bool {
    loud(source) ==> {
        &&& rate_converted(
            resample,
            normalised(source),
            SEPFORMER_SAMPLE_RATE,
            ECAPA_SAMPLE_RATE,
            t.audio,
        )
        &&& t.audio matches Ok(a) ==> embedded(
            embed,
            audio::fitted(a@, ECAPA_BLOCK_SAMPLES as nat),
            t.embedding,
        )
    }
}

/// What the answers come to: an embedding and its score, or the first error.
pub open spec fn match_outcome(
    anchors: Seq<Seq<Binary32>>,
    source: Seq<Binary32>,
    t: MatchReplies,
) -> Result<(Seq<Binary32>, Binary32), String> {
    if !loud(source) {
        Ok((Seq::empty(), vectors::zero()))
    } else {
        match t.audio {
            Err(e) => Err(e),
            Ok(_) => match t.embedding {
                Err(e) => Err(e),
                Ok(v) => Ok((v@, anchor_score(anchors, v@))),
            },
        }
    }
}

/// Scores one anonymous stream against the enrolled anchors. A silent stream
/// costs no inference and yields no embedding.
fn match_stream<R, E>(anchors: &[Vec<Binary32>], source: &[Binary32], resample: &R, embed: &E) -> (r:
    (Result<StreamMatch, String>, Ghost<MatchReplies>)) where
    R: Fn(&[Binary32], u32, u32) -> Result<Vec<Binary32>, String>,
    E: Fn(&[Binary32]) -> Result<Vec<Binary32>, String>,

    requires
        forall|a: &[Binary32], from: u32, to: u32| resample.requires((a, from, to)),
        forall|a: &[Binary32]| embed.requires((a,)),
    ensures
        match_asked(*resample, *embed, source@, r.1@),
        match r.0 {
            Ok(m) => match_outcome(vectors::rows(anchors@), source@, r.1@) == Ok::<
                (Seq<Binary32>, Binary32),
                String,
            >((m.embedding@, m.score)),
            Err(e) => match_outcome(vectors::rows(anchors@), source@, r.1@) == Err::<
                (Seq<Binary32>, Binary32),
                String,
            >(e),
        },
{
    let ghost nothing: Result<Vec<Binary32>, String> = arbitrary();
    if rms(source).less(Binary32 { bits: SILENCE_RMS }) {
        let m: StreamMatch = StreamMatch {
            embedding: Vec::new(),
            score: Binary32 { bits: 0 },
        };
        assert(m.embedding@ =~= Seq::empty());
        return (Ok(m), Ghost(MatchReplies { audio: nothing, embedding: nothing }));
    }
    let normal: Vec<Binary32> = normalise(source);
    let reply: Result<Vec<Binary32>, String> = resample_in_words(
        normal.as_slice(),
        SEPFORMER_SAMPLE_RATE,
        ECAPA_SAMPLE_RATE,
        resample,
    );
    let ghost first = reply;
    let mut wide: Vec<Binary32> = match reply {
        Ok(a) => a,
        Err(e) => {
            return (Err(e), Ghost(MatchReplies { audio: first, embedding: nothing }));
        },
    };
    force_length(&mut wide, ECAPA_BLOCK_SAMPLES);
    let clip: &[Binary32] = wide.as_slice();
    let reply: Result<Vec<Binary32>, String> = embed(clip);
    let ghost second = reply;
    proof {
        assert(embed.ensures((clip,), reply));
        assert(embedded(*embed, clip@, second));
    }
    match reply {
        Ok(embedding) => {
            let score: Binary32 = score_against(anchors, embedding.as_slice());
            (
                Ok(StreamMatch { embedding, score }),
                Ghost(MatchReplies { audio: first, embedding: second }),
            )
        },
        Err(e) => (Err(e), Ghost(MatchReplies { audio: first, embedding: second })),
    }
}

/// What was answered while one block was processed.
pub struct BlockReplies {
    pub down: Result<Vec<Binary32>, String>,
    pub streams: Result<(Vec<Binary32>, Vec<Binary32>), String>,
    pub first: MatchReplies,
    pub second: MatchReplies,
    pub up: Result<Vec<Binary32>, String>,
}

/// What a [`TargetSpeakerSeparator`] holds.
#[verifier::ext_equal]
pub struct SeparatorModel {
    pub pool: PoolModel,
    /// Score below which both streams are muted.
    pub limit: Binary32,
    /// Best stream score of the most recently scored block.
    pub last: Binary32,
    pub pending: Seq<Binary32>,
}

/// The embeddings and scores of the two streams of a block, or the first
/// error.
pub open spec fn scored(anchors: Seq<Seq<Binary32>>, t: BlockReplies) -> Result<
    ((Seq<Binary32>, Binary32), (Seq<Binary32>, Binary32)),
    String,
> {
    match t.down {
        Err(e) => Err(e),
        Ok(_) => match t.streams {
            Err(e) => Err(e),
            Ok((a, b)) => match match_outcome(anchors, a@, t.first) {
                Err(e) => Err(e),
                Ok(x) => match match_outcome(anchors, b@, t.second) {
                    Err(e) => Err(e),
                    Ok(y) => Ok((x, y)),
                },
            },
        },
    }
}

/// The answers are those to the right questions: the block is brought down to
/// the model's rate and length and separated, and its streams are scored in
/// order.
pub open spec fn scoring_asked<
    R: Fn(&[Binary32], u32, u32) -> Result<Vec<Binary32>, String>,
    S: Fn(&[Binary32]) -> Result<(Vec<Binary32>, Vec<Binary32>), String>,
    E: Fn(&[Binary32]) -> Result<Vec<Binary32>, String>,
>(
    resample: R,
    separate: S,
    embed: E,
    anchors: Seq<Seq<Binary32>>,
    mixture: Seq<Binary32>,
    t: BlockReplies,
) -> bool {
    &&& rate_converted(
        resample,
        mixture,
        audio::INTERNAL_SAMPLE_RATE,
        SEPFORMER_SAMPLE_RATE,
        t.down,
    )
    &&& t.down matches Ok(d) ==> {
        &&& split_up(
            separate,
            audio::fitted(d@, SEPFORMER_BLOCK_SAMPLES as nat),
            t.streams,
        )
        &&& t.streams matches Ok((a, b)) ==> {
            &&& match_asked(resample, embed, a@, t.first)
            &&& match_outcome(anchors, a@, t.first) is Ok ==> match_asked(
                resample,
                embed,
                b@,
                t.second,
            )
        }
    }
}

/// The better of two stream scores.
pub open spec fn best_of(
    s: ((Seq<Binary32>, Binary32), (Seq<Binary32>, Binary32)),
) -> Binary32 {
    s.0.1.larger(s.1.1)
}

/// The stream that goes on, at the level and polarity of the mixture.
pub open spec fn chosen(
    s: ((Seq<Binary32>, Binary32), (Seq<Binary32>, Binary32)),
    input: Seq<Binary32>,
    mixture: Seq<Binary32>,
    a: Seq<Binary32>,
    b: Seq<Binary32>,
) -> Seq<Binary32> {
    let pick = if s.0.1.lt(s.1.1) {
        b
    } else {
        a
    };
    amplified(pick, polarised(common_gain(audio::level(input), a, b), pick, mixture))
}

/// The answers are those to the right questions.
pub open spec fn block_asked<
    R: Fn(&[Binary32], u32, u32) -> Result<Vec<Binary32>, String>,
    S: Fn(&[Binary32]) -> Result<(Vec<Binary32>, Vec<Binary32>), String>,
    E: Fn(&[Binary32]) -> Result<Vec<Binary32>, String>,
>(
    resample: R,
    separate: S,
    embed: E,
    m: SeparatorModel,
    mixture: Seq<Binary32>,
    valid: nat,
    t: BlockReplies,
) -> bool {
    let input = mixture.take(valid as int);
    loud(input) ==> {
        &&& scoring_asked(resample, separate, embed, m.pool.anchors, mixture, t)
        &&& scored(m.pool.anchors, t) matches Ok(s) ==> (m.limit.le(best_of(s)) ==> rate_converted(
            resample,
            chosen(
                s,
                input,
                audio::fitted(t.down->Ok_0@, SEPFORMER_BLOCK_SAMPLES as nat),
                t.streams->Ok_0.0@,
                t.streams->Ok_0.1@,
            ),
            SEPFORMER_SAMPLE_RATE,
            audio::INTERNAL_SAMPLE_RATE,
            t.up,
        ))
    }
}

/// What the answers come to: silence for a silent block and for one in which
/// neither stream is the enrolled speaker, else the chosen stream back at the
/// live rate, cut to the captured samples and faded at its edges; or the
/// first error.
pub open spec fn block_outcome(
    m: SeparatorModel,
    mixture: Seq<Binary32>,
    valid: nat,
    t: BlockReplies,
) -> Result<Seq<Binary32>, String> {
    if !loud(mixture.take(valid as int)) {
        Ok(audio::hush(valid))
    } else {
        match scored(m.pool.anchors, t) {
            Err(e) => Err(e),
            Ok(s) => if !m.limit.le(best_of(s)) {
                Ok(audio::hush(valid))
            } else {
                match t.up {
                    Err(e) => Err(e),
                    Ok(u) => Ok(
                        audio::faded(
                            audio::fitted(u@, LIVE_BLOCK_SAMPLES as nat).take(valid as int),
                        ),
                    ),
                }
            },
        }
    }
}

/// The separator once a block has been processed: all that changes is the
/// score of the last block that was scored.
pub open spec fn block_done(
    m: SeparatorModel,
    mixture: Seq<Binary32>,
    valid: nat,
    t: BlockReplies,
) -> SeparatorModel {
    match scored(m.pool.anchors, t) {
        Ok(s) if loud(mixture.take(valid as int)) => SeparatorModel { last: best_of(s), ..m },
        _ => m,
    }
}

/// `r` shows the outcome `o`.
pub open spec fn shows(r: Result<Vec<Binary32>, String>, o: Result<Seq<Binary32>, String>) -> bool {
    match r {
        Ok(v) => o == Ok::<Seq<Binary32>, String>(v@),
        Err(e) => o == Err::<Seq<Binary32>, String>(e),
    }
}

/// A block with its streams and how they matched.
struct ScoredBlock {
    mixture_8k: Vec<Binary32>,
    stream_0: Vec<Binary32>,
    stream_1: Vec<Binary32>,
    first: StreamMatch,
    second: StreamMatch,
}

/// Separates a block and scores both of its streams.
fn score_block<R, S, E>(
    anchors: &[Vec<Binary32>],
    mixture_48k: &[Binary32],
    resample: &R,
    separate: &S,
    embed: &E,
) -> (r: (Result<ScoredBlock, String>, Ghost<BlockReplies>)) where
    R: Fn(&[Binary32], u32, u32) -> Result<Vec<Binary32>, String>,
    S: Fn(&[Binary32]) -> Result<(Vec<Binary32>, Vec<Binary32>), String>,
    E: Fn(&[Binary32]) -> Result<Vec<Binary32>, String>,

    requires
        forall|a: &[Binary32], from: u32, to: u32| resample.requires((a, from, to)),
        forall|a: &[Binary32]| separate.requires((a,)),
        forall|a: &[Binary32]| embed.requires((a,)),
    ensures
        scoring_asked(
            *resample,
            *separate,
            *embed,
            vectors::rows(anchors@),
            mixture_48k@,
            r.1@,
        ),
        match r.0 {
            Ok(b) => {
                &&& scored(vectors::rows(anchors@), r.1@) == Ok::<
                    ((Seq<Binary32>, Binary32), (Seq<Binary32>, Binary32)),
                    String,
                >(((b.first.embedding@, b.first.score), (b.second.embedding@, b.second.score)))
                &&& b.mixture_8k@ == audio::fitted(
                    r.1@.down->Ok_0@,
                    SEPFORMER_BLOCK_SAMPLES as nat,
                )
                &&& b.stream_0@ == r.1@.streams->Ok_0.0@
                &&& b.stream_1@ == r.1@.streams->Ok_0.1@
            },
            Err(e) => scored(vectors::rows(anchors@), r.1@) == Err::<
                ((Seq<Binary32>, Binary32), (Seq<Binary32>, Binary32)),
                String,
            >(e),
        },
{
    let ghost mut t: BlockReplies = arbitrary();
    let reply: Result<Vec<Binary32>, String> = resample_in_words(
        mixture_48k,
        audio::INTERNAL_SAMPLE_RATE,
        SEPFORMER_SAMPLE_RATE,
        resample,
    );
    proof {
        t.down = reply;
    }
    let mut mixture_8k: Vec<Binary32> = match reply {
        Ok(a) => a,
        Err(e) => {
            return (Err(e), Ghost(t));
        },
    };
    force_length(&mut mixture_8k, SEPFORMER_BLOCK_SAMPLES);
    let narrow: &[Binary32] = mixture_8k.as_slice();
    let reply: Result<(Vec<Binary32>, Vec<Binary32>), String> = separate(narrow);
    proof {
        t.streams = reply;
        assert(separate.ensures((narrow,), reply));
    }
    let (stream_0, stream_1) = match reply {
        Ok(streams) => streams,
        Err(e) => {
            return (Err(e), Ghost(t));
        },
    };
    let (outcome, Ghost(asked)) = match_stream(anchors, stream_0.as_slice(), resample, embed);
    proof {
        t.first = asked;
    }
    let first: StreamMatch = match outcome {
        Ok(x) => x,
        Err(e) => {
            return (Err(e), Ghost(t));
        },
    };
    let (outcome, Ghost(asked)) = match_stream(anchors, stream_1.as_slice(), resample, embed);
    proof {
        t.second = asked;
    }
    let second: StreamMatch = match outcome {
        Ok(x) => x,
        Err(e) => {
            return (Err(e), Ghost(t));
        },
    };
    (Ok(ScoredBlock { mixture_8k, stream_0, stream_1, first, second }), Ghost(t))
}

/// Buffered live separator and enrolled-speaker stream selector.
#[derive(Debug)]
pub struct TargetSpeakerSeparator {
    pool: EmbeddingPool,
    tuning: SeparatorTuning,
    pending: Vec<Binary32>,
}

impl View for TargetSpeakerSeparator {
    type V = SeparatorModel;

    closed spec fn view(&self) -> SeparatorModel {
        SeparatorModel {
            pool: self.pool@,
            limit: self.tuning.limit(),
            last: self.tuning.last(),
            pending: self.pending@,
        }
    }
}

impl TargetSpeakerSeparator {
    /// A selector for an enrolled speaker; refused where nobody is enrolled.
    pub fn new(pool: EmbeddingPool, tuning: SeparatorTuning) -> (r: Result<Self, String>)
        requires
            pool.valid(),
        ensures
            r is Ok <==> pool@.references().len() > 0,
            r matches Ok(s) ==> s@ == (SeparatorModel {
                pool: pool@,
                limit: tuning.limit(),
                last: tuning.last(),
                pending: Seq::empty(),
            }),
            r matches Err(e) ==> e@ == "SepFormer target selection requires an enrollment"@,
    {
        if pool.is_empty() {
            return Err(String::from_str("SepFormer target selection requires an enrollment"));
        }
        let r: TargetSpeakerSeparator = TargetSpeakerSeparator {
            pool,
            tuning,
            pending: Vec::new(),
        };
        assert(r@.pending =~= Seq::empty());
        Ok(r)
    }

    /// The knobs as they stand.
    pub fn tuning(&self) -> (r: SeparatorTuning)
        ensures
            r.limit() == self@.limit,
            r.last() == self@.last,
    {
        self.tuning
    }

    /// Moves the fail-closed threshold while a session runs.
    pub fn set_threshold(&mut self, value: Binary32)
        ensures
            final(self)@ == (SeparatorModel { limit: value, ..old(self)@ }),
    {
        self.tuning.set_threshold(value);
    }

    /// Separates one block and keeps the enrolled speaker's stream.
    fn process_block<R, S, E>(
        &mut self,
        mixture_48k: &[Binary32],
        valid: usize,
        resample: &R,
        separate: &S,
        embed: &E,
    ) -> (r: (Result<Vec<Binary32>, String>, Ghost<BlockReplies>)) where
        R: Fn(&[Binary32], u32, u32) -> Result<Vec<Binary32>, String>,
        S: Fn(&[Binary32]) -> Result<(Vec<Binary32>, Vec<Binary32>), String>,
        E: Fn(&[Binary32]) -> Result<Vec<Binary32>, String>,

        requires
            valid <= mixture_48k@.len() == LIVE_BLOCK_SAMPLES,
            forall|a: &[Binary32], from: u32, to: u32| resample.requires((a, from, to)),
            forall|a: &[Binary32]| separate.requires((a,)),
            forall|a: &[Binary32]| embed.requires((a,)),
        ensures
            block_asked(
                *resample,
                *separate,
                *embed,
                old(self)@,
                mixture_48k@,
                valid as nat,
                r.1@,
            ),
            shows(r.0, block_outcome(old(self)@, mixture_48k@, valid as nat, r.1@)),
            final(self)@ == block_done(old(self)@, mixture_48k@, valid as nat, r.1@),
    {
        let ghost m = self@;
        let ghost mut t: BlockReplies = arbitrary();
        let input: &[Binary32] = vstd::slice::slice_subrange(mixture_48k, 0, valid);
        assert(input@ =~= mixture_48k@.take(valid as int));
        let input_rms: Binary32 = rms(input);
        if input_rms.less(Binary32 { bits: SILENCE_RMS }) {
            return (Ok(audio::silent(valid)), Ghost(t));
        }
        let (outcome, Ghost(asked)) = score_block(
            self.pool.anchors(),
            mixture_48k,
            resample,
            separate,
            embed,
        );
        proof {
            t = asked;
        }
        let block: ScoredBlock = match outcome {
            Ok(block) => block,
            Err(e) => {
                return (Err(e), Ghost(t));
            },
        };
        let best_score: Binary32 = block.first.score.maximum(block.second.score);
        self.tuning.store_last_best_score(best_score);
        if !self.tuning.threshold().at_most(best_score) {
            return (Ok(audio::silent(valid)), Ghost(t));
        }
        let r0: Binary32 = rms(block.stream_0.as_slice());
        let r1: Binary32 = rms(block.stream_1.as_slice());
        let together: Binary32 = r0.times(r0).plus(r1.times(r1)).square_root();
        let gain: Binary32 = input_rms.over(together.maximum(Binary32 { bits: LEAST_RMS })).minimum(
            Binary32 { bits: GREATEST_GAIN },
        );
        let pick: &Vec<Binary32> = if block.first.score.less(block.second.score) {
            &block.stream_1
        } else {
            &block.stream_0
        };
        let correlation: Binary32 = vectors::dot_product(
            pick.as_slice(),
            block.mixture_8k.as_slice(),
        );
        let scale: Binary32 = if correlation.less(Binary32 { bits: 0 }) {
            gain.negate()
        } else {
            gain
        };
        let chosen_8k: Vec<Binary32> = amplify(pick.as_slice(), scale);
        let reply: Result<Vec<Binary32>, String> = resample_in_words(
            chosen_8k.as_slice(),
            SEPFORMER_SAMPLE_RATE,
            audio::INTERNAL_SAMPLE_RATE,
            resample,
        );
        proof {
            t.up = reply;
        }
        let mut chosen_48k: Vec<Binary32> = match reply {
            Ok(a) => a,
            Err(e) => {
                return (Err(e), Ghost(t));
            },
        };
        force_length(&mut chosen_48k, LIVE_BLOCK_SAMPLES);
        let ghost u = chosen_48k@;
        chosen_48k.truncate(valid);
        assert(chosen_48k@ =~= u.take(valid as int));
        audio::fade_and_clamp(&mut chosen_48k);
        (Ok(chosen_48k), Ghost(t))
    }
}

/// The separator after the first `k` blocks of a signal.
pub open spec fn after_blocks(
    m: SeparatorModel,
    all: Seq<Binary32>,
    replies: Seq<BlockReplies>,
    k: nat,
) -> SeparatorModel
    decreases k,
{
    if k == 0 {
        m
    } else {
        let n = LIVE_BLOCK_SAMPLES as nat;
        block_done(
            after_blocks(m, all, replies, (k - 1) as nat),
            resampler::block(all, n, k - 1),
            n,
            replies[k - 1],
        )
    }
}

/// Block `i` of a signal was asked about in its turn, and came out as
/// `output`.
pub open spec fn block_fits<
    R: Fn(&[Binary32], u32, u32) -> Result<Vec<Binary32>, String>,
    S: Fn(&[Binary32]) -> Result<(Vec<Binary32>, Vec<Binary32>), String>,
    E: Fn(&[Binary32]) -> Result<Vec<Binary32>, String>,
>(
    resample: R,
    separate: S,
    embed: E,
    m: SeparatorModel,
    all: Seq<Binary32>,
    replies: Seq<BlockReplies>,
    i: int,
    output: Result<Seq<Binary32>, String>,
) -> bool {
    let n = LIVE_BLOCK_SAMPLES as nat;
    let at = after_blocks(m, all, replies, i as nat);
    let block = resampler::block(all, n, i);
    &&& block_asked(resample, separate, embed, at, block, n, replies[i])
    &&& block_outcome(at, block, n, replies[i]) == output
}

/// All whole blocks of a signal came out as `outputs`, and left the separator
/// as `after`.
pub open spec fn all_selected<
    R: Fn(&[Binary32], u32, u32) -> Result<Vec<Binary32>, String>,
    S: Fn(&[Binary32]) -> Result<(Vec<Binary32>, Vec<Binary32>), String>,
    E: Fn(&[Binary32]) -> Result<Vec<Binary32>, String>,
>(
    resample: R,
    separate: S,
    embed: E,
    m: SeparatorModel,
    all: Seq<Binary32>,
    replies: Seq<BlockReplies>,
    outputs: Seq<Vec<Binary32>>,
    after: SeparatorModel,
) -> bool {
    let n = LIVE_BLOCK_SAMPLES as nat;
    &&& blocks_asked(resample, separate, embed, m, all, replies, outputs)
    &&& replies.len() == outputs.len() == resampler::block_count(all, n)
    &&& after == SeparatorModel {
        pending: resampler::residue(all, n),
        ..after_blocks(m, all, replies, outputs.len())
    }
}

/// The blocks before block `done.len()` of a signal came out as `done`, that
/// one failed, and the separator was left as `after`.
pub open spec fn selection_failed<
    R: Fn(&[Binary32], u32, u32) -> Result<Vec<Binary32>, String>,
    S: Fn(&[Binary32]) -> Result<(Vec<Binary32>, Vec<Binary32>), String>,
    E: Fn(&[Binary32]) -> Result<Vec<Binary32>, String>,
>(
    resample: R,
    separate: S,
    embed: E,
    m: SeparatorModel,
    all: Seq<Binary32>,
    replies: Seq<BlockReplies>,
    done: Seq<Vec<Binary32>>,
    error: String,
    after: SeparatorModel,
) -> bool {
    let n = LIVE_BLOCK_SAMPLES as nat;
    let k = done.len();
    &&& blocks_asked(resample, separate, embed, m, all, replies, done)
    &&& k < resampler::block_count(all, n)
    &&& k < replies.len()
    &&& block_fits(resample, separate, embed, m, all, replies, k as int, Err(error))
    &&& after == SeparatorModel {
        pending: resampler::after(all, n, k + 1),
        ..after_blocks(m, all, replies, k + 1)
    }
}

/// The blocks of a signal behind a list of processed ones.
pub open spec fn blocks_asked<
    R: Fn(&[Binary32], u32, u32) -> Result<Vec<Binary32>, String>,
    S: Fn(&[Binary32]) -> Result<(Vec<Binary32>, Vec<Binary32>), String>,
    E: Fn(&[Binary32]) -> Result<Vec<Binary32>, String>,
>(
    resample: R,
    separate: S,
    embed: E,
    m: SeparatorModel,
    all: Seq<Binary32>,
    replies: Seq<BlockReplies>,
    outputs: Seq<Vec<Binary32>>,
) -> bool {
    &&& replies.len() >= outputs.len()
    &&& forall|i: int|
        0 <= i < outputs.len() ==> block_fits(
            resample,
            separate,
            embed,
            m,
            all,
            replies,
            i,
            Ok((#[trigger] outputs[i])@),
        )
}

proof fn lemma_after_blocks(
    m: SeparatorModel,
    all: Seq<Binary32>,
    a: Seq<BlockReplies>,
    b: Seq<BlockReplies>,
    k: nat,
)
    requires
        k <= a.len() <= b.len(),
        forall|i: int| 0 <= i < a.len() ==> a[i] == b[i],
    ensures
        after_blocks(m, all, a, k) == after_blocks(m, all, b, k),
    decreases k,
{
    if k > 0 {
        lemma_after_blocks(m, all, a, b, (k - 1) as nat);
    }
}

impl TargetSpeakerSeparator {
    /// Append live input and return every complete selected one-second block.
    /// Where a block fails, the blocks up to and with it are dropped, so that
    /// it cannot be processed again on the next push.
    pub fn push<R, S, E>(
        &mut self,
        input_48k: &[Binary32],
        resample: &R,
        separate: &S,
        embed: &E,
    ) -> (r: Result<Vec<Vec<Binary32>>, String>) where
        R: Fn(&[Binary32], u32, u32) -> Result<Vec<Binary32>, String>,
        S: Fn(&[Binary32]) -> Result<(Vec<Binary32>, Vec<Binary32>), String>,
        E: Fn(&[Binary32]) -> Result<Vec<Binary32>, String>,

        requires
            forall|a: &[Binary32], from: u32, to: u32| resample.requires((a, from, to)),
            forall|a: &[Binary32]| separate.requires((a,)),
            forall|a: &[Binary32]| embed.requires((a,)),
        ensures
            ({
                let m = old(self)@;
                let all = m.pending + input_48k@;
                match r {
                    Ok(outputs) => exists|
                        replies: Seq<BlockReplies>,
                        done: Seq<Vec<Binary32>>,
                        after: SeparatorModel,
                    | #[trigger]
                        all_selected(
                            *resample,
                            *separate,
                            *embed,
                            m,
                            all,
                            replies,
                            done,
                            after,
                        ) && outputs@ == done && final(self)@ == after,
                    Err(e) => exists|
                        replies: Seq<BlockReplies>,
                        done: Seq<Vec<Binary32>>,
                        error: String,
                        after: SeparatorModel,
                    | #[trigger]
                        selection_failed(
                            *resample,
                            *separate,
                            *embed,
                            m,
                            all,
                            replies,
                            done,
                            error,
                            after,
                        ) && e == error && final(self)@ == after,
                }
            }),
    {
        let ghost m = self@;
        let ghost all = m.pending + input_48k@;
        let ghost n = LIVE_BLOCK_SAMPLES as nat;
        let ghost mut replies: Seq<BlockReplies> = Seq::empty();
        self.pending.extend_from_slice(input_48k);
        assert(self.pending@ =~= all);
        let mut outputs: Vec<Vec<Binary32>> = Vec::new();
        let total: usize = self.pending.len() / LIVE_BLOCK_SAMPLES;
        let mut done: usize = 0;
        assert(resampler::after(all, n, 0) =~= all);
        while done < total
            invariant
                done <= total,
                n == LIVE_BLOCK_SAMPLES,
                m == old(self)@,
                all == m.pending + input_48k@,
                total == resampler::block_count(all, n),
                total * n <= all.len(),
                replies.len() == done,
                outputs.len() == done,
                blocks_asked(*resample, *separate, *embed, m, all, replies, outputs@),
                self@ == (SeparatorModel {
                    pending: resampler::after(all, n, done as nat),
                    ..after_blocks(m, all, replies, done as nat)
                }),
                forall|a: &[Binary32], from: u32, to: u32| resample.requires((a, from, to)),
                forall|a: &[Binary32]| separate.requires((a,)),
                forall|a: &[Binary32]| embed.requires((a,)),
            decreases total - done,
        {
            assert(done * n + n <= all.len()) by (nonlinear_arith)
                requires
                    done + 1 <= total,
                    total * n <= all.len(),
                    n > 0,
            ;
            let ghost at = after_blocks(m, all, replies, done as nat);
            let rest: Vec<Binary32> = self.pending.split_off(LIVE_BLOCK_SAMPLES);
            let block: Vec<Binary32> = vectors::copy(self.pending.as_slice());
            self.pending = rest;
            assert(block@ =~= resampler::block(all, n, done as int));
            assert((done + 1) * n == done * n + n) by (nonlinear_arith);
            assert(self.pending@ =~= resampler::after(all, n, (done + 1) as nat));
            let ghost before = self@;
            let (outcome, Ghost(t)) = self.process_block(
                block.as_slice(),
                LIVE_BLOCK_SAMPLES,
                resample,
                separate,
                embed,
            );
            let ghost longer = replies.push(t);
            proof {
                let b = resampler::block(all, n, done as int);
                assert(block_asked(*resample, *separate, *embed, at, b, n, t));
                assert(block_outcome(before, b, n, t) == block_outcome(at, b, n, t));
                assert(block_done(before, b, n, t) == SeparatorModel {
                    pending: before.pending,
                    ..block_done(at, b, n, t)
                });
                lemma_after_blocks(m, all, replies, longer, done as nat);
                assert(after_blocks(m, all, longer, (done + 1) as nat) == block_done(at, b, n, t));
                assert forall|i: int| 0 <= i < outputs@.len() implies block_fits(
                    *resample,
                    *separate,
                    *embed,
                    m,
                    all,
                    longer,
                    i,
                    Ok((#[trigger] outputs@[i])@),
                ) by {
                    lemma_after_blocks(m, all, replies, longer, i as nat);
                    assert(block_fits(
                        *resample,
                        *separate,
                        *embed,
                        m,
                        all,
                        replies,
                        i,
                        Ok(outputs@[i]@),
                    ));
                }
                assert(blocks_asked(*resample, *separate, *embed, m, all, longer, outputs@));
            }
            match outcome {
                Ok(output) => {
                    outputs.push(output);
                    proof {
                        replies = longer;
                    }
                },
                Err(e) => {
                    proof {
                        assert(selection_failed(
                            *resample,
                            *separate,
                            *embed,
                            m,
                            all,
                            longer,
                            outputs@,
                            e,
                            self@,
                        ));
                    }
                    return Err(e);
                },
            }
            done = done + 1;
        }
        proof {
            assert(all_selected(
                *resample,
                *separate,
                *embed,
                m,
                all,
                replies,
                outputs@,
                self@,
            ));
        }
        Ok(outputs)
    }

    /// Zero-pad and process the final partial block, returning only the
    /// samples that were actually captured.
    pub fn flush<R, S, E>(&mut self, resample: &R, separate: &S, embed: &E) -> (r: Result<
        Option<Vec<Binary32>>,
        String,
    >) where
        R: Fn(&[Binary32], u32, u32) -> Result<Vec<Binary32>, String>,
        S: Fn(&[Binary32]) -> Result<(Vec<Binary32>, Vec<Binary32>), String>,
        E: Fn(&[Binary32]) -> Result<Vec<Binary32>, String>,

        requires
            old(self)@.pending.len() <= LIVE_BLOCK_SAMPLES,
            forall|a: &[Binary32], from: u32, to: u32| resample.requires((a, from, to)),
            forall|a: &[Binary32]| separate.requires((a,)),
            forall|a: &[Binary32]| embed.requires((a,)),
        ensures
            ({
                let m = old(self)@;
                if m.pending.len() == 0 {
                    r == Ok::<Option<Vec<Binary32>>, String>(None) && final(self)@ == m
                } else {
                    let block = audio::fitted(m.pending, LIVE_BLOCK_SAMPLES as nat);
                    let valid = m.pending.len();
                    exists|t: BlockReplies| #[trigger]
                        block_asked(*resample, *separate, *embed, m, block, valid, t) && (match r {
                            Ok(o) => o matches Some(v) && block_outcome(m, block, valid, t) == Ok::<
                                Seq<Binary32>,
                                String,
                            >(v@),
                            Err(e) => block_outcome(m, block, valid, t) == Err::<
                                Seq<Binary32>,
                                String,
                            >(e),
                        }) && final(self)@ == (SeparatorModel {
                            pending: Seq::empty(),
                            ..block_done(m, block, valid, t)
                        })
                }
            }),
    {
        let ghost m = self@;
        if self.pending.len() == 0 {
            return Ok(None);
        }
        let valid: usize = self.pending.len();
        let mut block: Vec<Binary32> = Vec::new();
        std::mem::swap(&mut block, &mut self.pending);
        force_length(&mut block, LIVE_BLOCK_SAMPLES);
        assert(self@.pending =~= Seq::empty());
        let ghost before = self@;
        let (outcome, Ghost(t)) = self.process_block(
            block.as_slice(),
            valid,
            resample,
            separate,
            embed,
        );
        proof {
            let b = audio::fitted(m.pending, LIVE_BLOCK_SAMPLES as nat);
            let v = m.pending.len();
            assert(block_asked(*resample, *separate, *embed, m, b, v, t));
            assert(block_outcome(before, b, v, t) == block_outcome(m, b, v, t));
        }
        match outcome {
            Ok(output) => Ok(Some(output)),
            Err(e) => Err(e),
        }
    }
}

/// Blocks of a recording that are used for calibration.
pub open spec fn wanted_blocks(total: nat) -> nat {
    if total < MAX_SEPARATOR_ENROLLMENT_BLOCKS {
        total
    } else {
        MAX_SEPARATOR_ENROLLMENT_BLOCKS as nat
    }
}

/// The `k`-th of the blocks that are used, evenly spread over the recording.
pub open spec fn calibration_block(total: nat, k: nat) -> nat {
    k * total / wanted_blocks(total)
}

/// The embedding that a block contributes: that of the stream closer to the
/// enrolled speaker, where it has one; or the first error.
pub open spec fn contribution(
    anchors: Seq<Seq<Binary32>>,
    block: Seq<Binary32>,
    t: BlockReplies,
) -> Result<Option<Seq<Binary32>>, String> {
    if !loud(block) {
        Ok(None)
    } else {
        match scored(anchors, t) {
            Err(e) => Err(e),
            Ok(s) => {
                let pick = if s.0.1.lt(s.1.1) {
                    s.1.0
                } else {
                    s.0.0
                };
                if pick.len() == 0 {
                    Ok(None)
                } else {
                    Ok(Some(pick))
                }
            },
        }
    }
}

/// The `k`-th block that is used for calibration.
pub open spec fn calibration_audio(recording: Seq<Binary32>, k: nat) -> Seq<Binary32> {
    let n = LIVE_BLOCK_SAMPLES as nat;
    resampler::block(
        recording,
        n,
        calibration_block(resampler::block_count(recording, n), k) as int,
    )
}

/// What the first `k` blocks contribute, in order; or the first error.
pub open spec fn contributions(
    anchors: Seq<Seq<Binary32>>,
    recording: Seq<Binary32>,
    replies: Seq<BlockReplies>,
    k: nat,
) -> Result<Seq<Seq<Binary32>>, String>
    decreases k,
{
    if k == 0 {
        Ok(Seq::empty())
    } else {
        match contributions(anchors, recording, replies, (k - 1) as nat) {
            Err(e) => Err(e),
            Ok(v) => match contribution(
                anchors,
                calibration_audio(recording, (k - 1) as nat),
                replies[k - 1],
            ) {
                Err(e) => Err(e),
                Ok(Some(x)) => Ok(v.push(x)),
                Ok(None) => Ok(v),
            },
        }
    }
}

/// Each of the blocks that were looked at was asked about, unless it is
/// silent.
pub open spec fn calibration_asked<
    R: Fn(&[Binary32], u32, u32) -> Result<Vec<Binary32>, String>,
    S: Fn(&[Binary32]) -> Result<(Vec<Binary32>, Vec<Binary32>), String>,
    E: Fn(&[Binary32]) -> Result<Vec<Binary32>, String>,
>(
    resample: R,
    separate: S,
    embed: E,
    anchors: Seq<Seq<Binary32>>,
    recording: Seq<Binary32>,
    replies: Seq<BlockReplies>,
) -> bool {
    forall|k: int|
        0 <= k < replies.len() && loud(calibration_audio(recording, k as nat)) ==> scoring_asked(
            resample,
            separate,
            embed,
            anchors,
            calibration_audio(recording, k as nat),
            #[trigger] replies[k],
        )
}

/// The blocks that are used lie within the recording.
proof fn lemma_calibration_block(total: nat, k: nat)
    requires
        k < wanted_blocks(total),
    ensures
        calibration_block(total, k) < total,
{
    let w = wanted_blocks(total);
    vstd::arithmetic::div_mod::lemma_fundamental_div_mod((k * total) as int, w as int);
    assert(k * total < w * total) by (nonlinear_arith)
        requires
            k < w,
            total > 0,
    ;
    assert(k * total / w < total) by (nonlinear_arith)
        requires
            k * total < w * total,
            w > 0,
            k * total == w * (k * total / w) + (k * total) % w,
            (k * total) % w >= 0,
    ;
}

/// The blocks that are used for calibration lie within the recording, and no
/// block is used twice.
pub proof fn law_calibration_blocks_are_distinct(total: nat, j: nat, k: nat)
    requires
        j < k < wanted_blocks(total),
    ensures
        calibration_block(total, j) < calibration_block(total, k) < total,
{
    lemma_calibration_block(total, k);
    let w = wanted_blocks(total);
    let a = j * total;
    let b = k * total;
    assert(a + w <= b) by (nonlinear_arith)
        requires
            a == j * total,
            b == k * total,
            j + 1 <= k,
            w <= total,
    ;
    vstd::arithmetic::div_mod::lemma_div_is_ordered((a + w) as int, b as int, w as int);
    vstd::arithmetic::div_mod::lemma_div_plus_one(a as int, w as int);
}

proof fn lemma_contributions(
    anchors: Seq<Seq<Binary32>>,
    recording: Seq<Binary32>,
    a: Seq<BlockReplies>,
    b: Seq<BlockReplies>,
    k: nat,
)
    requires
        k <= a.len() <= b.len(),
        forall|i: int| 0 <= i < a.len() ==> a[i] == b[i],
    ensures
        contributions(anchors, recording, a, k) == contributions(anchors, recording, b, k),
    decreases k,
{
    if k > 0 {
        lemma_contributions(anchors, recording, a, b, (k - 1) as nat);
    }
}

/// Embeddings of the enrolled speaker as they come out of the separator,
/// measured on evenly spread blocks of a clean recording. No threshold is
/// applied: the anchors come from the same trusted recording, so the closer of
/// the two streams is the speaker by construction.
pub fn calibration_anchors<R, S, E>(
    anchors: &[Vec<Binary32>],
    audio_48k: &[Binary32],
    resample: &R,
    separate: &S,
    embed: &E,
) -> (r: Result<Vec<Vec<Binary32>>, String>) where
    R: Fn(&[Binary32], u32, u32) -> Result<Vec<Binary32>, String>,
    S: Fn(&[Binary32]) -> Result<(Vec<Binary32>, Vec<Binary32>), String>,
    E: Fn(&[Binary32]) -> Result<Vec<Binary32>, String>,

    requires
        forall|a: &[Binary32], from: u32, to: u32| resample.requires((a, from, to)),
        forall|a: &[Binary32]| separate.requires((a,)),
        forall|a: &[Binary32]| embed.requires((a,)),
    ensures
        ({
            let known = vectors::rows(anchors@);
            let wanted = wanted_blocks(
                resampler::block_count(audio_48k@, LIVE_BLOCK_SAMPLES as nat),
            );
            exists|replies: Seq<BlockReplies>| #[trigger]
                calibration_asked(*resample, *separate, *embed, known, audio_48k@, replies)
                    && replies.len() <= wanted && (match r {
                    Ok(v) => replies.len() == wanted && contributions(
                        known,
                        audio_48k@,
                        replies,
                        wanted,
                    ) == Ok::<Seq<Seq<Binary32>>, String>(vectors::rows(v@)),
                    Err(e) => contributions(known, audio_48k@, replies, replies.len()) == Err::<
                        Seq<Seq<Binary32>>,
                        String,
                    >(e),
                })
        }),
{
    let ghost known = vectors::rows(anchors@);
    let ghost n = LIVE_BLOCK_SAMPLES as nat;
    let total: usize = audio_48k.len() / LIVE_BLOCK_SAMPLES;
    let wanted: usize = if total < MAX_SEPARATOR_ENROLLMENT_BLOCKS {
        total
    } else {
        MAX_SEPARATOR_ENROLLMENT_BLOCKS
    };
    let mut found: Vec<Vec<Binary32>> = Vec::with_capacity(wanted);
    let ghost mut replies: Seq<BlockReplies> = Seq::empty();
    assert(vectors::rows(found@) =~= Seq::empty());
    let mut k: usize = 0;
    while k < wanted
        invariant
            n == LIVE_BLOCK_SAMPLES,
            known == vectors::rows(anchors@),
            total == resampler::block_count(audio_48k@, n),
            total * n <= audio_48k@.len() <= usize::MAX,
            wanted == wanted_blocks(total as nat),
            k <= wanted,
            replies.len() == k,
            calibration_asked(*resample, *separate, *embed, known, audio_48k@, replies),
            contributions(known, audio_48k@, replies, k as nat) == Ok::<
                Seq<Seq<Binary32>>,
                String,
            >(vectors::rows(found@)),
            forall|a: &[Binary32], from: u32, to: u32| resample.requires((a, from, to)),
            forall|a: &[Binary32]| separate.requires((a,)),
            forall|a: &[Binary32]| embed.requires((a,)),
        decreases wanted - k,
    {
        proof {
            lemma_calibration_block(total as nat, k as nat);
            assert(k * total <= 8 * total) by (nonlinear_arith)
                requires
                    k <= 8,
                    total >= 0,
            ;
        }
        let index: usize = k * total / wanted;
        proof {
            assert(0 <= index * n && index * n + n <= total * n) by (nonlinear_arith)
                requires
                    0 <= index,
                    index + 1 <= total,
                    n > 0,
            ;
        }
        let start: usize = index * LIVE_BLOCK_SAMPLES;
        let block: &[Binary32] = vstd::slice::slice_subrange(
            audio_48k,
            start,
            start + LIVE_BLOCK_SAMPLES,
        );
        assert(block@ =~= calibration_audio(audio_48k@, k as nat));
        let ghost mut t: BlockReplies = arbitrary();
        let ghost before = replies;
        if rms(block).less(Binary32 { bits: SILENCE_RMS }) {
            proof {
                replies = before.push(t);
                lemma_contributions(known, audio_48k@, before, replies, k as nat);
                lemma_asked(*resample, *separate, *embed, known, audio_48k@, before, t);
            }
        } else {
            let (outcome, Ghost(asked)) = score_block(anchors, block, resample, separate, embed);
            proof {
                t = asked;
                replies = before.push(t);
                lemma_contributions(known, audio_48k@, before, replies, k as nat);
                lemma_asked(*resample, *separate, *embed, known, audio_48k@, before, t);
            }
            match outcome {
                Ok(b) => {
                    let pick: Vec<Binary32> = if b.first.score.less(b.second.score) {
                        b.second.embedding
                    } else {
                        b.first.embedding
                    };
                    if pick.len() > 0 {
                        let ghost have = vectors::rows(found@);
                        let ghost x = pick@;
                        found.push(pick);
                        assert(vectors::rows(found@) =~= have.push(x));
                    }
                },
                Err(e) => {
                    assert(contributions(known, audio_48k@, replies, replies.len()) == Err::<
                        Seq<Seq<Binary32>>,
                        String,
                    >(e));
                    return Err(e);
                },
            }
        }
        k = k + 1;
    }
    Ok(found)
}

proof fn lemma_asked<
    R: Fn(&[Binary32], u32, u32) -> Result<Vec<Binary32>, String>,
    S: Fn(&[Binary32]) -> Result<(Vec<Binary32>, Vec<Binary32>), String>,
    E: Fn(&[Binary32]) -> Result<Vec<Binary32>, String>,
>(
    resample: R,
    separate: S,
    embed: E,
    anchors: Seq<Seq<Binary32>>,
    recording: Seq<Binary32>,
    replies: Seq<BlockReplies>,
    t: BlockReplies,
)
    requires
        calibration_asked(resample, separate, embed, anchors, recording, replies),
        loud(calibration_audio(recording, replies.len())) ==> scoring_asked(
            resample,
            separate,
            embed,
            anchors,
            calibration_audio(recording, replies.len()),
            t,
        ),
    ensures
        calibration_asked(resample, separate, embed, anchors, recording, replies.push(t)),
{
    let longer = replies.push(t);
    assert forall|k: int|
        0 <= k < longer.len() && loud(
            calibration_audio(recording, k as nat),
        ) implies scoring_asked(
        resample,
        separate,
        embed,
        anchors,
        calibration_audio(recording, k as nat),
        #[trigger] longer[k],
    ) by {
        if k < replies.len() {
            assert(longer[k] == replies[k]);
        }
    }
}

/// The message about a companion profile with too few embeddings.
pub open spec fn too_few_message(n: nat) -> Seq<char> {
    "分離後の本人声紋が"@ + text::decimal_text(n)
        + "個しか作れませんでした（4個以上必要）"@
}

/// Completes the companion profile from what calibration found, or says how
/// much is missing.
pub fn complete_separator_pool(base_pool: &EmbeddingPool, anchors: Vec<Vec<Binary32>>) -> (r:
    Result<EmbeddingPool, String>)
    requires
        base_pool.valid(),
    ensures
        r is Ok <==> anchors@.len() >= MIN_SEPARATOR_ANCHORS,
        r matches Ok(pool) ==> pool.valid() && pool@ == (PoolModel {
            anchors: base_pool@.anchors + vectors::rows(anchors@),
            ..base_pool@
        }),
        r matches Err(e) ==> e@ == too_few_message(anchors@.len()),
{
    if anchors.len() < MIN_SEPARATOR_ANCHORS {
        let count: String = text::decimal(anchors.len() as u64);
        return Err(
            text::enclosed(
                "分離後の本人声紋が",
                count.as_str(),
                "個しか作れませんでした（4個以上必要）",
            ),
        );
    }
    let mut pool: EmbeddingPool = base_pool.clone();
    pool.add_anchors(anchors);
    Ok(pool)
}

/// Build the companion speaker-selection profile used after separation.
///
/// The returned pool retains the clean enrollment anchors and adds up to eight
/// embeddings measured after the separation that is used live. It is kept
/// apart from the ordinary gate profile, so that separator artifacts cannot
/// shift the raw-microphone centroid.
pub fn build_separator_enrollment_pool<R, S, E>(
    base_pool: &EmbeddingPool,
    audio_48k: &[Binary32],
    resample: &R,
    separate: &S,
    embed: &E,
) -> (r: Result<EmbeddingPool, String>) where
    R: Fn(&[Binary32], u32, u32) -> Result<Vec<Binary32>, String>,
    S: Fn(&[Binary32]) -> Result<(Vec<Binary32>, Vec<Binary32>), String>,
    E: Fn(&[Binary32]) -> Result<Vec<Binary32>, String>,

    requires
        base_pool.valid(),
        forall|a: &[Binary32], from: u32, to: u32| resample.requires((a, from, to)),
        forall|a: &[Binary32]| separate.requires((a,)),
        forall|a: &[Binary32]| embed.requires((a,)),
    ensures
        base_pool@.references().len() == 0 ==> (r matches Err(e) && e@
            == "SepFormer target selection requires an enrollment"@),
        base_pool@.references().len() > 0 ==> ({
            let known = base_pool@.anchors;
            let wanted = wanted_blocks(
                resampler::block_count(audio_48k@, LIVE_BLOCK_SAMPLES as nat),
            );
            exists|replies: Seq<BlockReplies>| #[trigger]
                calibration_asked(*resample, *separate, *embed, known, audio_48k@, replies)
                    && replies.len() <= wanted && (match contributions(
                    known,
                    audio_48k@,
                    replies,
                    replies.len(),
                ) {
                    Err(e) => r == Err::<EmbeddingPool, String>(e),
                    Ok(found) => replies.len() == wanted && (if found.len()
                        < MIN_SEPARATOR_ANCHORS {
                        r matches Err(e) && e@ == too_few_message(found.len())
                    } else {
                        r matches Ok(pool) && pool.valid() && pool@ == (PoolModel {
                            anchors: known + found,
                            ..base_pool@
                        })
                    }),
                })
        }),
{
    if base_pool.is_empty() {
        return Err(String::from_str("SepFormer target selection requires an enrollment"));
    }
    match calibration_anchors(base_pool.anchors(), audio_48k, resample, separate, embed) {
        Ok(found) => complete_separator_pool(base_pool, found),
        Err(e) => Err(e),
    }
}

/// The separator fails closed: what is heard of a block comes from a loud block
/// in which a stream reaches the threshold. Everything else is silence.
pub proof fn law_only_the_enrolled_voice_passes(
    m: SeparatorModel,
    mixture: Seq<Binary32>,
    valid: nat,
    t: BlockReplies,
)
    requires
        block_outcome(m, mixture, valid, t) is Ok,
        block_outcome(m, mixture, valid, t)->Ok_0 != audio::hush(valid),
    ensures
        loud(mixture.take(valid as int)),
        scored(m.pool.anchors, t) matches Ok(s) && m.limit.le(best_of(s)),
{
}

/// A block comes out as long as what was captured of it.
pub proof fn law_blocks_keep_their_length(
    m: SeparatorModel,
    mixture: Seq<Binary32>,
    valid: nat,
    t: BlockReplies,
)
    requires
        valid <= LIVE_BLOCK_SAMPLES,
    ensures
        block_outcome(m, mixture, valid, t) matches Ok(v) ==> v.len() == valid,
{
}

/// Extra registrations only ever help: more anchors never lower the score of
/// a stream.
pub proof fn law_extra_registrations_never_hurt(
    anchors: Seq<Seq<Binary32>>,
    more: Seq<Seq<Binary32>>,
    emb: Seq<Binary32>,
)
    requires
        anchors.len() > 0,
    ensures
        anchor_score(anchors, emb).le(anchor_score(anchors + more, emb)),
{
    let all = anchors + more;
    let s = similarities(anchors, emb);
    let w = similarities(all, emb);
    let start = vectors::lowest();
    assert(!start.nan()) by {
        crate::binary32::lemma_format();
    }
    vectors::law_greatest(start, s, anchors.len());
    vectors::law_greatest(start, w, all.len());
    let g = vectors::greatest(start, s, anchors.len());
    if g != start {
        let i = choose|i: int| 0 <= i < anchors.len() && #[trigger] s[i] == g;
        assert(w[i] == s[i]) by {
            assert(all[i] == anchors[i]);
        }
        assert(w[i].le(vectors::greatest(start, w, all.len())));
    }
}

/// What has been processed leaves what is waiting alone.
proof fn lemma_pending_stays(
    m: SeparatorModel,
    all: Seq<Binary32>,
    replies: Seq<BlockReplies>,
    k: nat,
)
    ensures
        after_blocks(m, all, replies, k).pending == m.pending,
    decreases k,
{
    if k > 0 {
        lemma_pending_stays(m, all, replies, (k - 1) as nat);
    }
}

/// The separator after a prefix of the blocks, whatever follows them.
proof fn lemma_same_blocks(
    m: SeparatorModel,
    a: Seq<Binary32>,
    b: Seq<Binary32>,
    p: Seq<BlockReplies>,
    q: Seq<BlockReplies>,
    k: nat,
)
    requires
        k <= p.len(),
        forall|i: int|
            0 <= i < k ==> #[trigger] resampler::block(a, LIVE_BLOCK_SAMPLES as nat, i)
                == resampler::block(b, LIVE_BLOCK_SAMPLES as nat, i),
    ensures
        after_blocks(m, a, p + q, k) == after_blocks(m, b, p, k),
    decreases k,
{
    if k > 0 {
        lemma_same_blocks(m, a, b, p, q, (k - 1) as nat);
        assert((p + q)[k - 1] == p[k - 1]);
        assert(resampler::block(a, LIVE_BLOCK_SAMPLES as nat, k - 1) == resampler::block(
            b,
            LIVE_BLOCK_SAMPLES as nat,
            k - 1,
        ));
    }
}

/// The separator after all blocks of one signal and `i` of the next.
proof fn lemma_later_blocks(
    m: SeparatorModel,
    between: SeparatorModel,
    whole: Seq<Binary32>,
    second: Seq<Binary32>,
    p: Seq<BlockReplies>,
    q: Seq<BlockReplies>,
    i: nat,
)
    requires
        i <= q.len(),
        after_blocks(m, whole, p + q, p.len()) == (SeparatorModel { pending: m.pending, ..between }),
        forall|j: int|
            0 <= j < q.len() ==> #[trigger] resampler::block(second, LIVE_BLOCK_SAMPLES as nat, j)
                == resampler::block(whole, LIVE_BLOCK_SAMPLES as nat, p.len() + j),
    ensures
        after_blocks(m, whole, p + q, p.len() + i) == (SeparatorModel {
            pending: m.pending,
            ..after_blocks(between, second, q, i)
        }),
    decreases i,
{
    if i > 0 {
        lemma_later_blocks(m, between, whole, second, p, q, (i - 1) as nat);
        assert((p + q)[p.len() + i - 1] == q[i - 1]);
        assert(resampler::block(second, LIVE_BLOCK_SAMPLES as nat, i - 1) == resampler::block(
            whole,
            LIVE_BLOCK_SAMPLES as nat,
            p.len() + (i - 1),
        ));
    }
}

/// Two pushes that went well are one: the same blocks are asked about in the
/// same order, the selected blocks follow one another, and the separator is
/// left the same.
#[verifier::rlimit(40)]
pub proof fn law_two_pushes_are_one<
    R: Fn(&[Binary32], u32, u32) -> Result<Vec<Binary32>, String>,
    S: Fn(&[Binary32]) -> Result<(Vec<Binary32>, Vec<Binary32>), String>,
    E: Fn(&[Binary32]) -> Result<Vec<Binary32>, String>,
>(
    resample: R,
    separate: S,
    embed: E,
    m: SeparatorModel,
    a: Seq<Binary32>,
    b: Seq<Binary32>,
    p: Seq<BlockReplies>,
    q: Seq<BlockReplies>,
    first: Seq<Vec<Binary32>>,
    second: Seq<Vec<Binary32>>,
    between: SeparatorModel,
    end: SeparatorModel,
)
    requires
        all_selected(resample, separate, embed, m, m.pending + a, p, first, between),
        all_selected(resample, separate, embed, between, between.pending + b, q, second, end),
    ensures
        all_selected(
            resample,
            separate,
            embed,
            m,
            m.pending + (a + b),
            p + q,
            first + second,
            end,
        ),
{
    let n = LIVE_BLOCK_SAMPLES as nat;
    let one = m.pending + a;
    let two = between.pending + b;
    let whole = m.pending + (a + b);
    let k = p.len();
    resampler::law_chunking_does_not_matter(m.pending, a, b, n);
    assert forall|i: int| 0 <= i < k implies #[trigger] resampler::block(whole, n, i)
        == resampler::block(one, n, i) by {}
    lemma_same_blocks(m, whole, one, p, q, k);
    lemma_pending_stays(m, one, p, k);
    assert forall|j: int| 0 <= j < q.len() implies #[trigger] resampler::block(two, n, j)
        == resampler::block(whole, n, k + j) by {}
    let outputs = first + second;
    assert forall|i: int| 0 <= i < outputs.len() implies block_fits(
        resample,
        separate,
        embed,
        m,
        whole,
        p + q,
        i,
        Ok((#[trigger] outputs[i])@),
    ) by {
        if i < k {
            assert(outputs[i] == first[i]);
            assert((p + q)[i] == p[i]);
            lemma_same_blocks(m, whole, one, p, q, i as nat);
            assert(resampler::block(whole, n, i) == resampler::block(one, n, i));
            assert(block_fits(resample, separate, embed, m, one, p, i, Ok(first[i]@)));
        } else {
            let j = i - k;
            assert(outputs[i] == second[j]);
            assert((p + q)[i] == q[j]);
            lemma_later_blocks(m, between, whole, two, p, q, j as nat);
            assert(resampler::block(two, n, j) == resampler::block(whole, n, k + j));
            assert(block_fits(resample, separate, embed, between, two, q, j, Ok(second[j]@)));
        }
    }
    lemma_later_blocks(m, between, whole, two, p, q, q.len());
}

/// The separator after a push that went well.
pub open spec fn after_push(
    m: SeparatorModel,
    input: Seq<Binary32>,
    replies: Seq<BlockReplies>,
) -> SeparatorModel {
    let all = m.pending + input;
    SeparatorModel {
        pending: resampler::residue(all, LIVE_BLOCK_SAMPLES as nat),
        ..after_blocks(m, all, replies, replies.len())
    }
}

/// Pushing `pieces` one after the other, from `m` on: push `i` got the answers
/// `replies[i]` and returned `outputs[i]`, and `end` is left after all of them.
pub open spec fn selected_in_pieces<
    R: Fn(&[Binary32], u32, u32) -> Result<Vec<Binary32>, String>,
    S: Fn(&[Binary32]) -> Result<(Vec<Binary32>, Vec<Binary32>), String>,
    E: Fn(&[Binary32]) -> Result<Vec<Binary32>, String>,
>(
    resample: R,
    separate: S,
    embed: E,
    m: SeparatorModel,
    pieces: Seq<Seq<Binary32>>,
    replies: Seq<Seq<BlockReplies>>,
    outputs: Seq<Seq<Vec<Binary32>>>,
    end: SeparatorModel,
) -> bool
    decreases pieces.len(),
{
    &&& pieces.len() == replies.len() == outputs.len()
    &&& if pieces.len() == 0 {
        end == m
    } else {
        let between = after_push(m, pieces[0], replies[0]);
        &&& all_selected(
            resample,
            separate,
            embed,
            m,
            m.pending + pieces[0],
            replies[0],
            outputs[0],
            between,
        )
        &&& selected_in_pieces(
            resample,
            separate,
            embed,
            between,
            pieces.drop_first(),
            replies.drop_first(),
            outputs.drop_first(),
            end,
        )
    }
}

/// How the input is cut makes no difference: whatever a signal gives in pieces
/// of any sizes, the same signal can give in one push. The same blocks are asked
/// about in the same order, and come out the same.
pub proof fn law_pieces_are_one_push<
    R: Fn(&[Binary32], u32, u32) -> Result<Vec<Binary32>, String>,
    S: Fn(&[Binary32]) -> Result<(Vec<Binary32>, Vec<Binary32>), String>,
    E: Fn(&[Binary32]) -> Result<Vec<Binary32>, String>,
>(
    resample: R,
    separate: S,
    embed: E,
    m: SeparatorModel,
    pieces: Seq<Seq<Binary32>>,
    replies: Seq<Seq<BlockReplies>>,
    outputs: Seq<Seq<Vec<Binary32>>>,
    end: SeparatorModel,
)
    requires
        pieces.len() == 0 ==> m.pending.len() < LIVE_BLOCK_SAMPLES,
        selected_in_pieces(resample, separate, embed, m, pieces, replies, outputs, end),
    ensures
        all_selected(
            resample,
            separate,
            embed,
            m,
            m.pending + pieces.flatten(),
            replies.flatten(),
            outputs.flatten(),
            end,
        ),
    decreases pieces.len(),
{
    let n = LIVE_BLOCK_SAMPLES as nat;
    if pieces.len() == 0 {
        let all = m.pending + pieces.flatten();
        assert(all =~= m.pending);
        assert(resampler::block_count(all, n) == 0);
        assert(resampler::residue(all, n) =~= m.pending);
        assert(replies.flatten().len() == 0 && outputs.flatten().len() == 0);
    } else {
        let between = after_push(m, pieces[0], replies[0]);
        resampler::lemma_residue(m.pending + pieces[0], n);
        law_pieces_are_one_push(
            resample,
            separate,
            embed,
            between,
            pieces.drop_first(),
            replies.drop_first(),
            outputs.drop_first(),
            end,
        );
        law_two_pushes_are_one(
            resample,
            separate,
            embed,
            m,
            pieces[0],
            pieces.drop_first().flatten(),
            replies[0],
            replies.drop_first().flatten(),
            outputs[0],
            outputs.drop_first().flatten(),
            between,
            end,
        );
    }
}

/// Two replies about the streams of a mixture are the same.
pub open spec fn same_streams(
    x: Result<(Vec<Binary32>, Vec<Binary32>), String>,
    y: Result<(Vec<Binary32>, Vec<Binary32>), String>,
) -> bool {
    match (x, y) {
        (Ok((a, b)), Ok((c, d))) => a@ == c@ && b@ == d@,
        (Err(e), Err(f)) => e@ == f@,
        _ => false,
    }
}

/// The converter and the two models have one answer to each question.
pub open spec fn one_answer<
    R: Fn(&[Binary32], u32, u32) -> Result<Vec<Binary32>, String>,
    S: Fn(&[Binary32]) -> Result<(Vec<Binary32>, Vec<Binary32>), String>,
    E: Fn(&[Binary32]) -> Result<Vec<Binary32>, String>,
>(resample: R, separate: S, embed: E) -> bool {
    &&& forall|
        audio: Seq<Binary32>,
        from: u32,
        to: u32,
        x: Result<Vec<Binary32>, String>,
        y: Result<Vec<Binary32>, String>,
    | #[trigger]
        resample::answered(resample, audio, from, to, x) && #[trigger] resample::answered(
            resample,
            audio,
            from,
            to,
            y,
        ) ==> resample::same_reply(x, y)
    &&& forall|
        audio: Seq<Binary32>,
        x: Result<(Vec<Binary32>, Vec<Binary32>), String>,
        y: Result<(Vec<Binary32>, Vec<Binary32>), String>,
    | #[trigger]
        split_up(separate, audio, x) && #[trigger] split_up(separate, audio, y) ==> same_streams(
            x,
            y,
        )
    &&& forall|
        audio: Seq<Binary32>,
        x: Result<Vec<Binary32>, String>,
        y: Result<Vec<Binary32>, String>,
    | #[trigger]
        embedded(embed, audio, x) && #[trigger] embedded(embed, audio, y) ==> resample::same_reply(
            x,
            y,
        )
}

/// Two outcomes agree: both fail, or they are the same.
pub open spec fn agree<A>(a: Result<A, String>, b: Result<A, String>) -> bool {
    match (a, b) {
        (Ok(x), Ok(y)) => x == y,
        (Err(_), Err(_)) => true,
        _ => false,
    }
}

proof fn lemma_one_conversion<
    R: Fn(&[Binary32], u32, u32) -> Result<Vec<Binary32>, String>,
    S: Fn(&[Binary32]) -> Result<(Vec<Binary32>, Vec<Binary32>), String>,
    E: Fn(&[Binary32]) -> Result<Vec<Binary32>, String>,
>(
    resample: R,
    separate: S,
    embed: E,
    audio: Seq<Binary32>,
    from: u32,
    to: u32,
    x: Result<Vec<Binary32>, String>,
    y: Result<Vec<Binary32>, String>,
)
    requires
        one_answer(resample, separate, embed),
        rate_converted(resample, audio, from, to, x),
        rate_converted(resample, audio, from, to, y),
    ensures
        resample::same_reply(x, y),
{
    let a = choose|a: Result<Vec<Binary32>, resample::ResampleError>| #[trigger]
        resample::resampled(resample, audio, from, to, a) && resample::in_words(a, x);
    let b = choose|b: Result<Vec<Binary32>, resample::ResampleError>| #[trigger]
        resample::resampled(resample, audio, from, to, b) && resample::in_words(b, y);
    resample::law_equal_calls_agree(resample, audio, from, to, a, b);
}

proof fn lemma_one_match<
    R: Fn(&[Binary32], u32, u32) -> Result<Vec<Binary32>, String>,
    S: Fn(&[Binary32]) -> Result<(Vec<Binary32>, Vec<Binary32>), String>,
    E: Fn(&[Binary32]) -> Result<Vec<Binary32>, String>,
>(
    resample: R,
    separate: S,
    embed: E,
    anchors: Seq<Seq<Binary32>>,
    source: Seq<Binary32>,
    x: MatchReplies,
    y: MatchReplies,
)
    requires
        one_answer(resample, separate, embed),
        match_asked(resample, embed, source, x),
        match_asked(resample, embed, source, y),
    ensures
        agree(match_outcome(anchors, source, x), match_outcome(anchors, source, y)),
{
    if loud(source) {
        lemma_one_conversion(
            resample,
            separate,
            embed,
            normalised(source),
            SEPFORMER_SAMPLE_RATE,
            ECAPA_SAMPLE_RATE,
            x.audio,
            y.audio,
        );
    }
}

proof fn lemma_one_scoring<
    R: Fn(&[Binary32], u32, u32) -> Result<Vec<Binary32>, String>,
    S: Fn(&[Binary32]) -> Result<(Vec<Binary32>, Vec<Binary32>), String>,
    E: Fn(&[Binary32]) -> Result<Vec<Binary32>, String>,
>(
    resample: R,
    separate: S,
    embed: E,
    anchors: Seq<Seq<Binary32>>,
    mixture: Seq<Binary32>,
    x: BlockReplies,
    y: BlockReplies,
)
    requires
        one_answer(resample, separate, embed),
        scoring_asked(resample, separate, embed, anchors, mixture, x),
        scoring_asked(resample, separate, embed, anchors, mixture, y),
    ensures
        agree(scored(anchors, x), scored(anchors, y)),
        scored(anchors, x) is Ok ==> x.down->Ok_0@ == y.down->Ok_0@ && same_streams(
            x.streams,
            y.streams,
        ),
{
    lemma_one_conversion(
        resample,
        separate,
        embed,
        mixture,
        audio::INTERNAL_SAMPLE_RATE,
        SEPFORMER_SAMPLE_RATE,
        x.down,
        y.down,
    );
    if x.down is Ok {
        assert(same_streams(x.streams, y.streams));
        if let Ok((a, b)) = x.streams {
            lemma_one_match(resample, separate, embed, anchors, a@, x.first, y.first);
            if match_outcome(anchors, a@, x.first) is Ok {
                lemma_one_match(resample, separate, embed, anchors, b@, x.second, y.second);
            }
        }
    }
}

/// A block comes to one thing.
proof fn lemma_one_block<
    R: Fn(&[Binary32], u32, u32) -> Result<Vec<Binary32>, String>,
    S: Fn(&[Binary32]) -> Result<(Vec<Binary32>, Vec<Binary32>), String>,
    E: Fn(&[Binary32]) -> Result<Vec<Binary32>, String>,
>(
    resample: R,
    separate: S,
    embed: E,
    m: SeparatorModel,
    mixture: Seq<Binary32>,
    valid: nat,
    x: BlockReplies,
    y: BlockReplies,
)
    requires
        one_answer(resample, separate, embed),
        block_asked(resample, separate, embed, m, mixture, valid, x),
        block_asked(resample, separate, embed, m, mixture, valid, y),
    ensures
        agree(block_outcome(m, mixture, valid, x), block_outcome(m, mixture, valid, y)),
        block_done(m, mixture, valid, x) == block_done(m, mixture, valid, y),
{
    let input = mixture.take(valid as int);
    if loud(input) {
        lemma_one_scoring(resample, separate, embed, m.pool.anchors, mixture, x, y);
        if let Ok(s) = scored(m.pool.anchors, x) {
            if m.limit.le(best_of(s)) {
                lemma_one_conversion(
                    resample,
                    separate,
                    embed,
                    chosen(
                        s,
                        input,
                        audio::fitted(x.down->Ok_0@, SEPFORMER_BLOCK_SAMPLES as nat),
                        x.streams->Ok_0.0@,
                        x.streams->Ok_0.1@,
                    ),
                    SEPFORMER_SAMPLE_RATE,
                    audio::INTERNAL_SAMPLE_RATE,
                    x.up,
                    y.up,
                );
            }
        }
    }
}

/// The blocks of a signal come to one thing.
proof fn lemma_one_selection<
    R: Fn(&[Binary32], u32, u32) -> Result<Vec<Binary32>, String>,
    S: Fn(&[Binary32]) -> Result<(Vec<Binary32>, Vec<Binary32>), String>,
    E: Fn(&[Binary32]) -> Result<Vec<Binary32>, String>,
>(
    resample: R,
    separate: S,
    embed: E,
    m: SeparatorModel,
    all: Seq<Binary32>,
    p: Seq<BlockReplies>,
    q: Seq<BlockReplies>,
    a: Seq<Vec<Binary32>>,
    b: Seq<Vec<Binary32>>,
    k: nat,
)
    requires
        one_answer(resample, separate, embed),
        blocks_asked(resample, separate, embed, m, all, p, a),
        blocks_asked(resample, separate, embed, m, all, q, b),
        k <= a.len(),
        k <= b.len(),
    ensures
        after_blocks(m, all, p, k) == after_blocks(m, all, q, k),
        forall|i: int| 0 <= i < k ==> (#[trigger] a[i])@ == b[i]@,
    decreases k,
{
    if k > 0 {
        let n = LIVE_BLOCK_SAMPLES as nat;
        lemma_one_selection(resample, separate, embed, m, all, p, q, a, b, (k - 1) as nat);
        assert(block_fits(resample, separate, embed, m, all, p, k - 1, Ok(a[k - 1]@)));
        assert(block_fits(resample, separate, embed, m, all, q, k - 1, Ok(b[k - 1]@)));
        lemma_one_block(
            resample,
            separate,
            embed,
            after_blocks(m, all, p, (k - 1) as nat),
            resampler::block(all, n, k - 1),
            n,
            p[k - 1],
            q[k - 1],
        );
    }
}

/// Two equal separators whose converter and models have one answer to each
/// question, one given a signal in one push and one in pieces of any sizes,
/// select the same blocks in the same order and end up the same. Every block has
/// its full length, and what is kept is less than a block.
pub proof fn law_pushes_do_not_depend_on_chunking<
    R: Fn(&[Binary32], u32, u32) -> Result<Vec<Binary32>, String>,
    S: Fn(&[Binary32]) -> Result<(Vec<Binary32>, Vec<Binary32>), String>,
    E: Fn(&[Binary32]) -> Result<Vec<Binary32>, String>,
>(
    resample: R,
    separate: S,
    embed: E,
    m: SeparatorModel,
    pieces: Seq<Seq<Binary32>>,
    replies: Seq<Seq<BlockReplies>>,
    outputs: Seq<Seq<Vec<Binary32>>>,
    end: SeparatorModel,
    replies_at_once: Seq<BlockReplies>,
    at_once: Seq<Vec<Binary32>>,
    end_at_once: SeparatorModel,
)
    requires
        one_answer(resample, separate, embed),
        pieces.len() > 0,
        selected_in_pieces(resample, separate, embed, m, pieces, replies, outputs, end),
        all_selected(
            resample,
            separate,
            embed,
            m,
            m.pending + pieces.flatten(),
            replies_at_once,
            at_once,
            end_at_once,
        ),
    ensures
        ({
            let total = m.pending.len() + pieces.flatten().len();
            &&& vectors::rows(outputs.flatten()) == vectors::rows(at_once)
            &&& end == end_at_once
            &&& at_once.len() == total / LIVE_BLOCK_SAMPLES as nat
            &&& forall|i: int|
                0 <= i < at_once.len() ==> (#[trigger] at_once[i])@.len() == LIVE_BLOCK_SAMPLES
            &&& end.pending.len() == total % LIVE_BLOCK_SAMPLES as nat
        }),
{
    let n = LIVE_BLOCK_SAMPLES as nat;
    let all = m.pending + pieces.flatten();
    let flat = outputs.flatten();
    let r = replies_at_once;
    law_pieces_are_one_push(resample, separate, embed, m, pieces, replies, outputs, end);
    lemma_one_selection(
        resample,
        separate,
        embed,
        m,
        all,
        r,
        replies.flatten(),
        at_once,
        flat,
        at_once.len(),
    );
    resampler::lemma_residue(all, n);
    assert forall|i: int| 0 <= i < at_once.len() implies #[trigger] at_once[i]@.len()
        == LIVE_BLOCK_SAMPLES by {
        assert(block_fits(resample, separate, embed, m, all, r, i, Ok(at_once[i]@)));
        law_blocks_keep_their_length(
            after_blocks(m, all, r, i as nat),
            resampler::block(all, n, i),
            n,
            r[i],
        );
    }
    assert(vectors::rows(flat) =~= vectors::rows(at_once));
}

/// A stream was scored without an error: a loud one was brought to the
/// embedding rate and embedded.
pub open spec fn scored_well(source: Seq<Binary32>, t: MatchReplies) -> bool {
    loud(source) ==> t.audio is Ok && t.embedding is Ok
}

/// A loud stream sounds like anchor `k` to this degree.
pub open spec fn resemblance(anchors: Seq<Seq<Binary32>>, t: MatchReplies, k: int) -> Binary32 {
    cosine(t.embedding->Ok_0@, anchors[k])
}

/// A block was separated and both of its streams were scored.
pub open spec fn block_scored(t: BlockReplies) -> bool {
    &&& t.down is Ok
    &&& t.streams is Ok
    &&& scored_well(t.streams->Ok_0.0@, t.first)
    &&& scored_well(t.streams->Ok_0.1@, t.second)
}

/// The score of a stream is its best resemblance, and that of a silent one is
/// zero.
proof fn lemma_stream_score(anchors: Seq<Seq<Binary32>>, source: Seq<Binary32>, t: MatchReplies)
    requires
        anchors.len() > 0,
        scored_well(source, t),
    ensures
        match_outcome(anchors, source, t) matches Ok(x) && {
            &&& !x.1.nan()
            &&& !loud(source) ==> x.1 == vectors::zero() && x.0.len() == 0
            &&& loud(source) ==> {
                &&& x.0 == t.embedding->Ok_0@
                &&& forall|k: int|
                    0 <= k < anchors.len() && !resemblance(anchors, t, k).nan()
                        ==> (#[trigger] resemblance(anchors, t, k)).le(x.1)
                &&& x.1 == vectors::lowest() || exists|k: int|
                    0 <= k < anchors.len() && #[trigger] resemblance(anchors, t, k) == x.1
            }
        },
{
    if loud(source) {
        let e = t.embedding->Ok_0@;
        let s = similarities(anchors, e);
        vectors::law_greatest(vectors::lowest(), s, anchors.len());
        let g = vectors::greatest(vectors::lowest(), s, anchors.len());
        assert forall|k: int|
            0 <= k < anchors.len() && !resemblance(anchors, t, k).nan() implies (
            #[trigger] resemblance(anchors, t, k)).le(g) by {
            assert(s[k] == resemblance(anchors, t, k));
        }
        if g != vectors::lowest() {
            let k = choose|k: int| 0 <= k < anchors.len() && #[trigger] s[k] == g;
            assert(resemblance(anchors, t, k) == g);
        }
    }
}

/// Whichever of the two streams is the enrolled speaker, the speaker is heard:
/// where the first or the second stream of a loud block resembles an anchor up
/// to the threshold, the block is not muted. What comes out is what the chosen
/// stream was converted to, cut to what was captured and faded.
pub proof fn law_either_stream_lets_the_speaker_through(
    m: SeparatorModel,
    mixture: Seq<Binary32>,
    valid: nat,
    t: BlockReplies,
    k: int,
)
    requires
        loud(mixture.take(valid as int)),
        block_scored(t),
        0 <= k < m.pool.anchors.len(),
        loud(t.streams->Ok_0.0@) && m.limit.le(resemblance(m.pool.anchors, t.first, k)) || loud(
            t.streams->Ok_0.1@,
        ) && m.limit.le(resemblance(m.pool.anchors, t.second, k)),
    ensures
        block_outcome(m, mixture, valid, t) == (match t.up {
            Ok(u) => Ok::<Seq<Binary32>, String>(
                audio::faded(audio::fitted(u@, 48_000).take(valid as int)),
            ),
            Err(e) => Err(e),
        }),
{
    let a = t.streams->Ok_0.0@;
    let b = t.streams->Ok_0.1@;
    lemma_stream_score(m.pool.anchors, a, t.first);
    lemma_stream_score(m.pool.anchors, b, t.second);
    let x = match_outcome(m.pool.anchors, a, t.first)->Ok_0.1;
    let y = match_outcome(m.pool.anchors, b, t.second)->Ok_0.1;
    let best = x.larger(y);
    crate::binary32::lemma_total(x, y, best);
    crate::binary32::lemma_total(y, x, best);
    reveal(Binary32::le);
    let r = if loud(a) && m.limit.le(resemblance(m.pool.anchors, t.first, k)) {
        resemblance(m.pool.anchors, t.first, k)
    } else {
        resemblance(m.pool.anchors, t.second, k)
    };
    assert(r.le(best));
}

/// Where neither stream of a block resembles any anchor up to the threshold,
/// and the threshold is above what a silent stream scores, nothing is heard.
pub proof fn law_neither_stream_matching_is_silence(
    m: SeparatorModel,
    mixture: Seq<Binary32>,
    valid: nat,
    t: BlockReplies,
)
    requires
        block_scored(t),
        m.pool.anchors.len() > 0,
        vectors::zero().lt(m.limit),
        forall|k: int|
            0 <= k < m.pool.anchors.len() ==> !m.limit.le(
                #[trigger] resemblance(m.pool.anchors, t.first, k),
            ),
        forall|k: int|
            0 <= k < m.pool.anchors.len() ==> !m.limit.le(
                #[trigger] resemblance(m.pool.anchors, t.second, k),
            ),
    ensures
        block_outcome(m, mixture, valid, t) matches Ok(v) && v.len() == valid && forall|i: int|
            0 <= i < valid ==> #[trigger] v[i] == vectors::zero(),
{
    let a = t.streams->Ok_0.0@;
    let b = t.streams->Ok_0.1@;
    lemma_stream_score(m.pool.anchors, a, t.first);
    lemma_stream_score(m.pool.anchors, b, t.second);
    reveal(Binary32::le);
    reveal(Binary32::lt);
    assert(vectors::lowest().units() < vectors::zero().units()) by {
        crate::binary32::lemma_format();
        crate::binary::lemma_order(
            crate::binary32::format(),
            vectors::lowest().parts().pattern,
            vectors::zero().parts().pattern,
        );
    }
}

/// A silent block comes out as silence, whatever the models would say of it,
/// and leaves the last score alone.
pub proof fn law_silent_blocks_stay_silent(
    m: SeparatorModel,
    mixture: Seq<Binary32>,
    valid: nat,
    t: BlockReplies,
)
    requires
        valid <= mixture.len(),
        audio::level(mixture.take(valid as int)).lt(Binary32 { bits: 0x3727_c5ac }),
    ensures
        block_outcome(m, mixture, valid, t) matches Ok(v) && v.len() == valid && forall|i: int|
            0 <= i < valid ==> #[trigger] v[i] == vectors::zero(),
        block_done(m, mixture, valid, t) == m,
{
}

/// The score that is shown is the best of all resemblances of either stream: no
/// anchor is resembled more by the first or by the second stream, and it is one
/// of those resemblances, or the zero of a silent stream. Nothing else of the
/// separator changes with a block.
pub proof fn law_last_score_is_the_best_of_both_streams(
    m: SeparatorModel,
    mixture: Seq<Binary32>,
    valid: nat,
    t: BlockReplies,
)
    requires
        loud(mixture.take(valid as int)),
        block_scored(t),
        m.pool.anchors.len() > 0,
    ensures
        ({
            let anchors = m.pool.anchors;
            let a = t.streams->Ok_0.0@;
            let b = t.streams->Ok_0.1@;
            let after = block_done(m, mixture, valid, t);
            let x = after.last;
            &&& after.pool == m.pool && after.limit == m.limit && after.pending == m.pending
            &&& !x.nan()
            &&& !loud(a) || !loud(b) ==> vectors::zero().le(x)
            &&& forall|k: int|
                0 <= k < anchors.len() && loud(a) && !resemblance(anchors, t.first, k).nan()
                    ==> (#[trigger] resemblance(anchors, t.first, k)).le(x)
            &&& forall|k: int|
                0 <= k < anchors.len() && loud(b) && !resemblance(anchors, t.second, k).nan()
                    ==> (#[trigger] resemblance(anchors, t.second, k)).le(x)
            &&& {
                ||| (!loud(a) || !loud(b)) && x == vectors::zero()
                ||| x == vectors::lowest()
                ||| exists|k: int|
                    0 <= k < anchors.len() && loud(a) && #[trigger] resemblance(
                        anchors,
                        t.first,
                        k,
                    ) == x
                ||| exists|k: int|
                    0 <= k < anchors.len() && loud(b) && #[trigger] resemblance(
                        anchors,
                        t.second,
                        k,
                    ) == x
            }
        }),
{
    let anchors = m.pool.anchors;
    let a = t.streams->Ok_0.0@;
    let b = t.streams->Ok_0.1@;
    lemma_stream_score(anchors, a, t.first);
    lemma_stream_score(anchors, b, t.second);
    let p = match_outcome(anchors, a, t.first)->Ok_0.1;
    let q = match_outcome(anchors, b, t.second)->Ok_0.1;
    let x = p.larger(q);
    crate::binary32::lemma_total(p, q, x);
    crate::binary32::lemma_total(q, p, x);
    assert(p.le(x) && q.le(x));
    assert forall|k: int|
        0 <= k < anchors.len() && loud(a) && !resemblance(anchors, t.first, k).nan() implies (
        #[trigger] resemblance(anchors, t.first, k)).le(x) by {
        crate::binary32::lemma_total(resemblance(anchors, t.first, k), p, x);
    }
    assert forall|k: int|
        0 <= k < anchors.len() && loud(b) && !resemblance(anchors, t.second, k).nan() implies (
        #[trigger] resemblance(anchors, t.second, k)).le(x) by {
        crate::binary32::lemma_total(resemblance(anchors, t.second, k), q, x);
    }
}

/// The second stream is closer to the enrolled speaker: it resembles one anchor
/// more than the first stream resembles any.
pub open spec fn second_is_closer(anchors: Seq<Seq<Binary32>>, t: BlockReplies) -> bool {
    exists|k: int|
        0 <= k < anchors.len() && {
            let best = #[trigger] resemblance(anchors, t.second, k);
            &&& !best.nan()
            &&& forall|j: int|
                0 <= j < anchors.len() && !resemblance(anchors, t.first, j).nan() ==> (
                #[trigger] resemblance(anchors, t.first, j)).lt(best)
            &&& vectors::lowest().lt(best)
        }
}

/// The first stream is at least as close to the enrolled speaker: it resembles
/// one anchor no less than the second stream resembles any.
pub open spec fn first_is_close_enough(anchors: Seq<Seq<Binary32>>, t: BlockReplies) -> bool {
    exists|k: int|
        0 <= k < anchors.len() && {
            let best = #[trigger] resemblance(anchors, t.first, k);
            &&& !best.nan()
            &&& forall|j: int|
                0 <= j < anchors.len() && !resemblance(anchors, t.second, j).nan() ==> (
                #[trigger] resemblance(anchors, t.second, j)).le(best)
        }
}

proof fn lemma_closer(anchors: Seq<Seq<Binary32>>, t: BlockReplies)
    requires
        anchors.len() > 0,
        block_scored(t),
        loud(t.streams->Ok_0.0@),
        loud(t.streams->Ok_0.1@),
    ensures
        scored(anchors, t) matches Ok(s) && {
            &&& s.0.0 == t.first.embedding->Ok_0@
            &&& s.1.0 == t.second.embedding->Ok_0@
            &&& second_is_closer(anchors, t) ==> s.0.1.lt(s.1.1)
            &&& first_is_close_enough(anchors, t) ==> !s.0.1.lt(s.1.1)
        },
{
    let a = t.streams->Ok_0.0@;
    let b = t.streams->Ok_0.1@;
    lemma_stream_score(anchors, a, t.first);
    lemma_stream_score(anchors, b, t.second);
    let x = match_outcome(anchors, a, t.first)->Ok_0.1;
    let y = match_outcome(anchors, b, t.second)->Ok_0.1;
    assert(!vectors::lowest().nan());
    if second_is_closer(anchors, t) {
        let k = choose|k: int|
            0 <= k < anchors.len() && {
                let best = #[trigger] resemblance(anchors, t.second, k);
                &&& !best.nan()
                &&& forall|j: int|
                    0 <= j < anchors.len() && !resemblance(anchors, t.first, j).nan() ==> (
                    #[trigger] resemblance(anchors, t.first, j)).lt(best)
                &&& vectors::lowest().lt(best)
            };
        let best = resemblance(anchors, t.second, k);
        assert(best.le(y));
        assert(x.lt(best));
        crate::binary32::lemma_total(x, best, y);
    }
    if first_is_close_enough(anchors, t) {
        let k = choose|k: int|
            0 <= k < anchors.len() && {
                let best = #[trigger] resemblance(anchors, t.first, k);
                &&& !best.nan()
                &&& forall|j: int|
                    0 <= j < anchors.len() && !resemblance(anchors, t.second, j).nan() ==> (
                    #[trigger] resemblance(anchors, t.second, j)).le(best)
            };
        let best = resemblance(anchors, t.first, k);
        assert(best.le(x));
        if y == vectors::lowest() {
            reveal(Binary32::le);
            crate::binary32::lemma_format();
            crate::binary::lemma_order(
                crate::binary32::format(),
                best.parts().pattern,
                vectors::lowest().parts().pattern,
            );
            assert(y.le(best));
        }
        assert(y.le(best));
        crate::binary32::lemma_total(y, best, x);
        crate::binary32::lemma_total(x, y, y);
    }
}

/// The stream that goes on is the one closer to the enrolled speaker, every
/// sample of it at one common gain of at most 100, and turned round exactly
/// where it runs against the mixture. The first stream goes on where both are
/// as close.
pub proof fn law_closer_stream_goes_on<
    R: Fn(&[Binary32], u32, u32) -> Result<Vec<Binary32>, String>,
    S: Fn(&[Binary32]) -> Result<(Vec<Binary32>, Vec<Binary32>), String>,
    E: Fn(&[Binary32]) -> Result<Vec<Binary32>, String>,
>(
    resample: R,
    separate: S,
    embed: E,
    m: SeparatorModel,
    mixture: Seq<Binary32>,
    valid: nat,
    t: BlockReplies,
    k: int,
)
    requires
        block_asked(resample, separate, embed, m, mixture, valid, t),
        loud(mixture.take(valid as int)),
        block_scored(t),
        loud(t.streams->Ok_0.0@),
        loud(t.streams->Ok_0.1@),
        0 <= k < m.pool.anchors.len(),
        m.limit.le(resemblance(m.pool.anchors, t.first, k)) || m.limit.le(
            resemblance(m.pool.anchors, t.second, k),
        ),
    ensures
        second_is_closer(m.pool.anchors, t) ==> passed_on(resample, t.streams->Ok_0.1@, t),
        first_is_close_enough(m.pool.anchors, t) ==> passed_on(resample, t.streams->Ok_0.0@, t),
{
    let anchors = m.pool.anchors;
    let a = t.streams->Ok_0.0@;
    let b = t.streams->Ok_0.1@;
    lemma_closer(anchors, t);
    lemma_stream_score(anchors, a, t.first);
    lemma_stream_score(anchors, b, t.second);
    let s = scored(anchors, t)->Ok_0;
    let x = s.0.1;
    let y = s.1.1;
    let best = x.larger(y);
    crate::binary32::lemma_total(x, y, best);
    crate::binary32::lemma_total(y, x, best);
    assert(m.limit.le(best)) by {
        reveal(Binary32::le);
    }
    let input = mixture.take(valid as int);
    let down = audio::fitted(t.down->Ok_0@, SEPFORMER_BLOCK_SAMPLES as nat);
    let gain = common_gain(audio::level(input), a, b);
    let pick = if x.lt(y) {
        b
    } else {
        a
    };
    let scale = polarised(gain, pick, down);
    lemma_gain(audio::level(input), a, b);
    assert(chosen(s, input, down, a, b) == amplified(pick, scale));
    assert(gain.negation().parts() == crate::binary::Parts {
        negative: !gain.parts().negative,
        pattern: gain.parts().pattern,
    }) by {
        reveal(Binary32::negation);
    }
    assert(louder_copy(pick, amplified(pick, scale), gain, scale, down));
}

/// `copy` is `source`, sample by sample times `scale`, which is `gain` where
/// `source` runs with the mixture and the opposite of `gain` where it runs
/// against it.
pub open spec fn louder_copy(
    source: Seq<Binary32>,
    copy: Seq<Binary32>,
    gain: Binary32,
    scale: Binary32,
    mixture: Seq<Binary32>,
) -> bool {
    let against = vectors::dot(source, mixture, vectors::overlap(source, mixture)).lt(
        vectors::zero(),
    );
    &&& copy.len() == source.len()
    &&& forall|i: int| 0 <= i < source.len() ==> #[trigger] copy[i] == source[i].product(scale)
    &&& gain.le(Binary32 { bits: 0x42c8_0000 })
    &&& scale.parts().pattern == gain.parts().pattern
    &&& scale.parts().negative == (gain.parts().negative != against)
}

/// A louder copy of `source` was converted from the model's rate back to the
/// live rate.
pub open spec fn passed_on<R: Fn(&[Binary32], u32, u32) -> Result<Vec<Binary32>, String>>(
    resample: R,
    source: Seq<Binary32>,
    t: BlockReplies,
) -> bool {
    exists|copy: Seq<Binary32>, gain: Binary32, scale: Binary32|
        #[trigger] louder_copy(
            source,
            copy,
            gain,
            scale,
            audio::fitted(t.down->Ok_0@, 8_000),
        ) && rate_converted(resample, copy, 8_000, 48_000, t.up)
}

/// The common gain is at most 100.
proof fn lemma_gain(input: Binary32, a: Seq<Binary32>, b: Seq<Binary32>)
    ensures
        common_gain(input, a, b).le(Binary32 { bits: 0x42c8_0000 }),
{
    let top = Binary32 { bits: 0x42c8_0000 };
    let g = common_gain(input, a, b);
    assert(!top.nan());
    assert(!g.nan());
    crate::binary32::lemma_total(top, g, g);
    crate::binary32::lemma_total(g, top, top);
    crate::binary32::lemma_total(top, top, top);
}

/// The two streams share one gain, and neither counts for more in it than the
/// other.
pub proof fn law_gain_treats_both_streams_alike(
    input: Binary32,
    a: Seq<Binary32>,
    b: Seq<Binary32>,
)
    ensures
        common_gain(input, a, b) == common_gain(input, b, a),
{
    let x = audio::level(a).product(audio::level(a));
    let y = audio::level(b).product(audio::level(b));
    assert(x.sum(y) == y.sum(x)) by {
        reveal(Binary32::sum);
    }
}

/// The embedding that a block contributes to the companion profile is that of
/// the stream closer to the enrolled speaker, never that of the other one.
pub proof fn law_calibration_keeps_the_closer_stream(
    anchors: Seq<Seq<Binary32>>,
    block: Seq<Binary32>,
    t: BlockReplies,
)
    requires
        anchors.len() > 0,
        loud(block),
        block_scored(t),
        loud(t.streams->Ok_0.0@),
        loud(t.streams->Ok_0.1@),
        t.first.embedding->Ok_0@.len() > 0,
        t.second.embedding->Ok_0@.len() > 0,
    ensures
        second_is_closer(anchors, t) ==> contribution(anchors, block, t) == Ok::<
            Option<Seq<Binary32>>,
            String,
        >(Some(t.second.embedding->Ok_0@)),
        first_is_close_enough(anchors, t) ==> contribution(anchors, block, t) == Ok::<
            Option<Seq<Binary32>>,
            String,
        >(Some(t.first.embedding->Ok_0@)),
{
    lemma_closer(anchors, t);
}

/// No score of the stream that a block does not contribute is above that of the
/// stream that it does contribute, also where one of them is silent.
pub proof fn law_calibration_contributes_no_lower_score(
    anchors: Seq<Seq<Binary32>>,
    block: Seq<Binary32>,
    t: BlockReplies,
    x: Seq<Binary32>,
)
    requires
        contribution(anchors, block, t) == Ok::<Option<Seq<Binary32>>, String>(Some(x)),
    ensures
        loud(block),
        x.len() > 0,
        ({
            let a = t.streams->Ok_0.0@;
            let b = t.streams->Ok_0.1@;
            ||| loud(a) && x == t.first.embedding->Ok_0@ && !anchor_score(anchors, x).lt(
                if loud(b) {
                    anchor_score(anchors, t.second.embedding->Ok_0@)
                } else {
                    vectors::zero()
                },
            )
            ||| loud(b) && x == t.second.embedding->Ok_0@ && !anchor_score(anchors, x).lt(
                if loud(a) {
                    anchor_score(anchors, t.first.embedding->Ok_0@)
                } else {
                    vectors::zero()
                },
            )
        }),
{
    reveal(Binary32::lt);
}

/// What calibration finds comes from the blocks that it looks at, in order, and
/// every one that has something to contribute does.
pub proof fn law_every_calibration_block_counts(
    anchors: Seq<Seq<Binary32>>,
    recording: Seq<Binary32>,
    replies: Seq<BlockReplies>,
    k: nat,
)
    requires
        forall|i: int|
            0 <= i < k ==> contribution(
                anchors,
                calibration_audio(recording, i as nat),
                #[trigger] replies[i],
            ) is Ok,
        k <= replies.len(),
    ensures
        contributions(anchors, recording, replies, k) matches Ok(v) && {
            &&& v.len() <= k
            &&& (forall|i: int|
                0 <= i < k ==> contribution(
                    anchors,
                    calibration_audio(recording, i as nat),
                    #[trigger] replies[i],
                )->Ok_0 is Some) ==> v.len() == k && forall|i: int|
                0 <= i < k ==> Some(#[trigger] v[i]) == contribution(
                    anchors,
                    calibration_audio(recording, i as nat),
                    replies[i],
                )->Ok_0
            &&& forall|j: int|
                0 <= j < v.len() ==> exists|i: int|
                    0 <= i < k && contribution(
                        anchors,
                        calibration_audio(recording, i as nat),
                        #[trigger] replies[i],
                    )->Ok_0 == Some(#[trigger] v[j])
        },
    decreases k,
{
    if k > 0 {
        law_every_calibration_block_counts(anchors, recording, replies, (k - 1) as nat);
        let before = contributions(anchors, recording, replies, (k - 1) as nat)->Ok_0;
        let v = contributions(anchors, recording, replies, k)->Ok_0;
        let c = contribution(
            anchors,
            calibration_audio(recording, (k - 1) as nat),
            replies[k - 1],
        );
        assert(c is Ok);
        assert forall|j: int| 0 <= j < v.len() implies exists|i: int|
            0 <= i < k && contribution(
                anchors,
                calibration_audio(recording, i as nat),
                #[trigger] replies[i],
            )->Ok_0 == Some(#[trigger] v[j]) by {
            if j < before.len() {
                assert(v[j] == before[j]);
            } else {
                assert(c->Ok_0 == Some(v[j]));
            }
        }
    }
}

/// Calibration listens to the whole recording: of `total` blocks it takes all
/// where there are up to eight, and else eight, the `k`-th of which stands at
/// `k` eighths of the recording, to within one block.
pub proof fn law_calibration_blocks_are_evenly_spread(total: nat, k: nat)
    requires
        k < wanted_blocks(total),
    ensures
        wanted_blocks(total) == (if total <= 8 {
            total
        } else {
            8
        }),
        total <= 8 ==> calibration_block(total, k) == k,
        total > 8 ==> 8 * calibration_block(total, k) <= k * total < 8 * calibration_block(
            total,
            k,
        ) + 8,
{
    let w = wanted_blocks(total);
    vstd::arithmetic::div_mod::lemma_fundamental_div_mod((k * total) as int, w as int);
    if total <= 8 {
        vstd::arithmetic::div_mod::lemma_div_multiples_vanish(k as int, total as int);
        assert(k * total == total * k) by (nonlinear_arith);
    }
}

/// The audio that calibration looks at is that stretch of the recording, one
/// second long.
pub proof fn law_calibration_audio_is_from_the_recording(
    recording: Seq<Binary32>,
    k: nat,
    i: int,
)
    requires
        k < wanted_blocks(recording.len() / 48_000),
        0 <= i < 48_000,
    ensures
        ({
            let at = calibration_block(recording.len() / 48_000, k);
            &&& calibration_audio(recording, k).len() == 48_000
            &&& at * 48_000 + i < recording.len()
            &&& calibration_audio(recording, k)[i] == recording[at * 48_000 + i]
        }),
{
    let total = recording.len() / 48_000;
    lemma_calibration_block(total, k);
    let at = calibration_block(total, k);
    vstd::arithmetic::div_mod::lemma_fundamental_div_mod(recording.len() as int, 48_000);
}

/// The models hear a block as they were trained: the separator gets the whole
/// block at 8 kHz, cut or padded to one second, and the embedding model gets
/// each loud stream at 16 kHz and a common level, cut or padded to one second.
pub proof fn law_models_hear_the_block_at_their_rates<
    R: Fn(&[Binary32], u32, u32) -> Result<Vec<Binary32>, String>,
    S: Fn(&[Binary32]) -> Result<(Vec<Binary32>, Vec<Binary32>), String>,
    E: Fn(&[Binary32]) -> Result<Vec<Binary32>, String>,
>(
    resample: R,
    separate: S,
    embed: E,
    anchors: Seq<Seq<Binary32>>,
    mixture: Seq<Binary32>,
    t: BlockReplies,
)
    requires
        scoring_asked(resample, separate, embed, anchors, mixture, t),
        block_scored(t),
        anchors.len() > 0,
    ensures
        rate_converted(resample, mixture, 48_000, 8_000, t.down),
        split_up(separate, audio::fitted(t.down->Ok_0@, 8_000), t.streams),
        loud(t.streams->Ok_0.0@) ==> heard_by(resample, embed, t.streams->Ok_0.0@, t.first),
        loud(t.streams->Ok_0.1@) ==> heard_by(resample, embed, t.streams->Ok_0.1@, t.second),
{
    let a = t.streams->Ok_0.0@;
    let b = t.streams->Ok_0.1@;
    lemma_stream_score(anchors, a, t.first);
    if loud(a) {
        assert(levelled(a, normalised(a), scoring_gain(a)));
    }
    if loud(b) {
        assert(levelled(b, normalised(b), scoring_gain(b)));
    }
}

/// `copy` is `source` times one gain, held within full scale.
pub open spec fn levelled(source: Seq<Binary32>, copy: Seq<Binary32>, gain: Binary32) -> bool {
    &&& gain == scoring_gain(source)
    &&& copy.len() == source.len()
    &&& forall|i: int|
        0 <= i < source.len() ==> #[trigger] copy[i] == source[i].product(gain).clamped(
            Binary32 { bits: 0xbf80_0000 },
            Binary32 { bits: 0x3f80_0000 },
        )
}

/// The embedding model was asked about a stream at the scoring level.
pub open spec fn heard_by<
    R: Fn(&[Binary32], u32, u32) -> Result<Vec<Binary32>, String>,
    E: Fn(&[Binary32]) -> Result<Vec<Binary32>, String>,
>(resample: R, embed: E, source: Seq<Binary32>, t: MatchReplies) -> bool {
    exists|copy: Seq<Binary32>, gain: Binary32|
        #[trigger] levelled(source, copy, gain) && rate_converted(
            resample,
            copy,
            8_000,
            16_000,
            t.audio,
        ) && embedded(embed, audio::fitted(t.audio->Ok_0@, 16_000), t.embedding)
}

/// Streams are scored at a common level of 0.08: one that is there already is
/// left alone, one at half of it or less is at least doubled, and one at twice
/// of it or more is at least halved. The gain stays between 0.01 and 100.
#[verifier::rlimit(60)]
#[verifier::spinoff_prover]
pub proof fn law_streams_are_brought_to_the_scoring_level(s: Seq<Binary32>)
    requires
        audio::level(s).finite(),
        (Binary32 { bits: 0 }).lt(audio::level(s)),
    ensures
        ({
            let x = audio::level(s);
            let g = scoring_gain(s);
            &&& (Binary32 { bits: 0x3c23_d70a }).le(g)
            &&& g.le(Binary32 { bits: 0x42c8_0000 })
            &&& x == (Binary32 { bits: 0x3da3_d70a }) ==> g == (Binary32 { bits: 0x3f80_0000 })
            &&& x.le(Binary32 { bits: 0x3d23_d70a }) ==> (Binary32 { bits: 0x4000_0000 }).le(g)
            &&& (Binary32 { bits: 0x3e23_d70a }).le(x) ==> g.le(Binary32 { bits: 0x3f00_0000 })
        }),
{
    let x = audio::level(s);
    let wanted = Binary32 { bits: 0x3da3_d70a };
    let low = Binary32 { bits: 0x3c23_d70a };
    let high = Binary32 { bits: 0x42c8_0000 };
    let q = wanted.quotient(x);
    let f = crate::binary32::format();
    crate::binary32::lemma_format();
    assert(x.parts().pattern > 0 && !x.parts().negative) by {
        reveal(Binary32::lt);
        crate::binary::lemma_order(f, x.parts().pattern, 0);
    }
    lemma_marks();
    let d = x.parts().magnitude(f);
    let p = vstd::arithmetic::power2::pow2(149);
    crate::binary::lemma_order(f, x.parts().pattern, 0);
    let n = wanted.parts().magnitude(f) * p;
    crate::binary::lemma_rounded(f, false, n, d);
    assert(q.parts() == crate::binary::rounded(f, false, n, d)) by {
        reveal(Binary32::quotient);
    }
    if x == wanted {
        crate::binary32::lemma_self_quotient(x);
    }
    reveal(Binary32::le);
    reveal(Binary32::lt);
    let two = (Binary32 { bits: 0x4000_0000 }).parts().pattern;
    let half = (Binary32 { bits: 0x3f00_0000 }).parts().pattern;
    if x.le(Binary32 { bits: 0x3d23_d70a }) {
        assert(n >= (2 * p) * d) by (nonlinear_arith)
            requires
                n == wanted.parts().magnitude(f) * p,
                wanted.parts().magnitude(f) >= 2 * d,
                p >= 0,
        ;
        crate::rounding::lemma_nearest_bound(f.h(), f.inf(), n, d, two as nat);
        crate::binary::lemma_order(f, two, q.parts().pattern);
    }
    if (Binary32 { bits: 0x3e23_d70a }).le(x) {
        let m = crate::rounding::mag(f.h(), half as nat);
        assert(n <= m * d) by (nonlinear_arith)
            requires
                n == wanted.parts().magnitude(f) * p,
                2 * wanted.parts().magnitude(f) <= d,
                2 * m == p,
        ;
        crate::rounding::lemma_nearest_bound(f.h(), f.inf(), n, d, half as nat);
        crate::binary::lemma_order(f, half, q.parts().pattern);
        crate::binary::lemma_order(f, q.parts().pattern, half);
    }
    crate::binary::lemma_order(f, q.parts().pattern, two);
}

/// Some levels and gains, and how they stand to each other.
proof fn lemma_marks()
    ensures
        ({
            let f = crate::binary32::format();
            let p = vstd::arithmetic::power2::pow2(149);
            let wanted = (Binary32 { bits: 0x3da3_d70a }).units();
            &&& p > 0
            &&& (Binary32 { bits: 0x3f80_0000 }).units() == p
            &&& (Binary32 { bits: 0x4000_0000 }).units() == 2 * p
            &&& 2 * (Binary32 { bits: 0x3f00_0000 }).units() == p
            &&& 2 * (Binary32 { bits: 0x3d23_d70a }).units() == wanted
            &&& (Binary32 { bits: 0x3e23_d70a }).units() == 2 * wanted
            &&& (Binary32 { bits: 0x3c23_d70a }).units() < (Binary32 { bits: 0x3f00_0000 }).units()
            &&& (Binary32 { bits: 0x4000_0000 }).units() < (Binary32 { bits: 0x42c8_0000 }).units()
        }),
{
    let f = crate::binary32::format();
    let h = 0x80_0000nat;
    crate::binary32::lemma_format();
    vstd::arithmetic::power2::lemma2_to64();
    vstd::arithmetic::power2::lemma_pow2_pos(149);
    crate::binary32::lemma_one();
    crate::rounding::lemma_mag_parts(h, 125, h);
    crate::rounding::lemma_mag_parts(h, 126, h);
    crate::rounding::lemma_mag_parts(h, 127, h);
    vstd::arithmetic::power2::lemma_pow2_unfold(126);
    vstd::arithmetic::power2::lemma_pow2_unfold(127);
    let m = 0xa3_d70anat;
    crate::rounding::lemma_mag_parts(h, 122, m);
    crate::rounding::lemma_mag_parts(h, 121, m);
    crate::rounding::lemma_mag_parts(h, 123, m);
    vstd::arithmetic::power2::lemma_pow2_unfold(122);
    vstd::arithmetic::power2::lemma_pow2_unfold(123);
    vstd::arithmetic::power2::lemma_pow2_adds(23, 126);
    crate::binary::lemma_order(f, 0x3c23_d70a, 0x3f00_0000);
    crate::binary::lemma_order(f, 0x4000_0000, 0x42c8_0000);
}

/// The square of a small multiple of a power of two is exact.
proof fn lemma_exact_square(a: Binary32, m: nat, t: nat)
    requires
        a.finite(),
        a.units() == m * pow2(t),
        0 < m < 64,
        75 <= t <= 180,
    ensures
        a.product(a).finite(),
        a.product(a).units() == (m * m) * pow2((2 * t - 149) as nat),
{
    let f = crate::binary32::format();
    crate::binary32::lemma_format();
    let h = f.h();
    let e = (2 * t - 149) as nat;
    let u = pow2(149);
    vstd::arithmetic::power2::lemma_pow2_pos(149);
    vstd::arithmetic::power2::lemma_pow2_pos(t);
    vstd::arithmetic::power2::lemma_pow2_adds(t, t);
    vstd::arithmetic::power2::lemma_pow2_adds(e, 149);
    let c = m * m;
    assert(0 < c < 4096) by (nonlinear_arith)
        requires
            0 < m < 64,
            c == m * m,
    ;
    let k = crate::rounding::lemma_scaled(h, c, e);
    assert((e + 2) * h <= 213 * h) by (nonlinear_arith)
        requires
            e <= 211,
            h >= 0,
    ;
    let x = a.parts().magnitude(f);
    let q = pow2(t);
    assert(m * q > 0) by (nonlinear_arith)
        requires
            m > 0,
            q > 0,
    ;
    assert(x == m * q);
    let z = pow2(e);
    assert(x * x == (c * z) * u) by (nonlinear_arith)
        requires
            x == m * q,
            q * q == z * u,
            c == m * m,
    ;
    crate::rounding::lemma_representable(h, f.inf(), k, u);
    reveal(Binary32::product);
    let p = crate::binary::product(f, a.parts(), a.parts());
    assert(p.pattern == k && !p.negative);
    assert(Binary32::of(p).parts() == p);
}

/// A number is told by its size, where it is above zero.
proof fn lemma_told_by_units(a: Binary32, b: Binary32)
    requires
        a.finite() && b.finite(),
        a.units() == b.units() > 0,
    ensures
        a == b,
{
    let f = crate::binary32::format();
    crate::binary32::lemma_format();
    crate::binary::lemma_order(f, a.parts().pattern, b.parts().pattern);
    crate::binary::lemma_order(f, b.parts().pattern, a.parts().pattern);
    crate::binary32::lemma_parts(a);
    crate::binary32::lemma_parts(b);
}

/// What counts in the gain is the energy of both streams together, not the sum
/// of their levels: two streams at three and four parts are taken as a single
/// one at five, which is brought to the level of the mixture.
pub proof fn law_gain_goes_by_the_energy(
    input: Binary32,
    a: Seq<Binary32>,
    b: Seq<Binary32>,
    c: Seq<Binary32>,
    d: Seq<Binary32>,
    t: nat,
)
    requires
        75 <= t <= 180,
        audio::level(a).finite() && audio::level(a).units() == 3 * pow2(t),
        audio::level(b).finite() && audio::level(b).units() == 4 * pow2(t),
        audio::level(c).finite() && audio::level(c).units() == 5 * pow2(t),
        audio::level(d).finite() && audio::level(d).units() == 0,
    ensures
        common_gain(input, a, b) == common_gain(input, c, d),
        (Binary32 { bits: 0x3089_705f }).le(audio::level(c)) ==> common_gain(input, c, d)
            == input.quotient(audio::level(c)).smaller(Binary32 { bits: 0x42c8_0000 }),
{
    let f = crate::binary32::format();
    crate::binary32::lemma_format();
    let x = audio::level(a);
    let y = audio::level(b);
    let z = audio::level(c);
    let w = audio::level(d);
    lemma_exact_square(x, 3, t);
    lemma_exact_square(y, 4, t);
    lemma_exact_square(z, 5, t);
    let e = (2 * t - 149) as nat;
    let q = pow2(e);
    vstd::arithmetic::power2::lemma_pow2_pos(e);
    assert(w.parts().pattern == 0) by {
        crate::binary::lemma_order(f, w.parts().pattern, 0);
    }
    crate::binary32::lemma_times_zero(w, w);
    crate::binary32::lemma_plus_zero(w.product(w), z.product(z));
    let s = x.product(x).sum(y.product(y));
    let r = z.product(z).sum(w.product(w));
    assert(x.product(x).units() == 9 * q && y.product(y).units() == 16 * q);
    assert(r.units() == 25 * q);
    assert(s.finite() && s.units() == 25 * q) by {
        reveal(Binary32::sum);
        let k = crate::rounding::lemma_scaled(f.h(), 25, e);
        assert((e + 2) * f.h() <= 213 * f.h()) by (nonlinear_arith)
            requires
                e <= 211,
                f.h() >= 0,
        ;
        crate::rounding::lemma_representable(f.h(), f.inf(), k, 1);
        let p = crate::binary::sum(f, x.product(x).parts(), y.product(y).parts());
        assert(p.pattern == k && !p.negative);
        assert(Binary32::of(p).parts() == p);
    }
    lemma_told_by_units(s, r);
    let u = pow2(149);
    let v = pow2(t);
    vstd::arithmetic::power2::lemma_pow2_adds(t, t);
    vstd::arithmetic::power2::lemma_pow2_adds(e, 149);
    vstd::arithmetic::power2::lemma_pow2_pos(t);
    assert((25 * q) * u == (5 * v) * (5 * v)) by (nonlinear_arith)
        requires
            q * u == v * v,
    ;
    crate::binary::lemma_order(f, r.parts().pattern, 0);
    crate::binary::lemma_order(f, z.parts().pattern, 0);
    crate::binary::lemma_root_bound(f, r.parts(), z.parts().pattern);
    assert(r.root() == z) by {
        reveal(Binary32::root);
        crate::binary32::lemma_parts(z);
    }
    let least = Binary32 { bits: LEAST_RMS };
    if least.le(z) {
        assert(!least.nan() && !z.nan()) by {
            reveal(Binary32::le);
        }
        crate::binary32::lemma_total(z, least, least);
    }
}

} // verus!
