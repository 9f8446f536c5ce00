//! The worker of a live session, and the two audio callbacks around it.

use crate::audio;
use crate::audio::rms;
use crate::binary32::Binary32;
use crate::gating::GateConfig;
use crate::playback::PlaybackBuffer;
use crate::playback::PlaybackStatus;
use crate::resampler;
use crate::resampler::StreamingResampler;
use crate::separation;
use crate::separation::BlockReplies;
use crate::separation::SeparatorModel;
use crate::separation::SeparatorTuning;
use crate::separation::TargetSpeakerSeparator;
use crate::session::tuned;
use crate::session::GateTuning;
use crate::session::TuningModel;
use crate::text;
use crate::vectors;
use vstd::prelude::*;

verus! {

/// Counters of a session, also after it has stopped.
#[derive(Debug, Clone, Copy, PartialEq, Eq, Structural)]
pub struct LiveSessionStats {
    /// Samples that were handed on to the output.
    pub samples_processed: u64,
    /// Input chunks dropped because the worker cannot keep up.
    pub input_overruns: u64,
    /// Output callbacks that ran dry after playback had started. Startup
    /// prebuffering is not counted.
    pub output_underruns: u64,
}

impl Default for LiveSessionStats {
    fn default() -> (r: Self)
        ensures
            r.samples_processed == 0,
            r.input_overruns == 0,
            r.output_underruns == 0,
    {
        LiveSessionStats { samples_processed: 0, input_overruns: 0, output_underruns: 0 }
    }
}

/// What the worker can report.
#[derive(Debug)]
pub enum SessionEvent {
    /// A failure on the worker's side. The worker exits after reporting it.
    Error(String),
}

/// What became of a chunk that was put on a queue.
#[derive(Debug, Clone, Copy, PartialEq, Eq, Structural)]
pub enum SendOutcome {
    Sent,
    Full,
    Disconnected,
}

/// What the pipeline made of some samples.
#[derive(Debug)]
pub struct PipelineOutput {
    pub audio: Vec<Binary32>,
    /// The newest gate decision, where there was one.
    pub gate: Option<bool>,
    /// The score that the pipeline last measured.
    pub score: Binary32,
    /// The threshold that it was compared with.
    pub effective_threshold: Binary32,
}

/// How the worker goes on.
#[derive(Debug)]
pub enum WorkerStep {
    Continue,
    /// The output is gone: stop without a report.
    Stop,
    /// Report this and stop.
    Fail(SessionEvent),
}

/// The worker between the input queue and the output queue.
#[derive(Debug)]
pub struct Worker {
    separator: Option<TargetSpeakerSeparator>,
    gate_tuning: Option<GateTuning>,
    samples_processed: u64,
    /// Produced chunks that were lost because the output queue was full: the
    /// output device is slower than the pipeline, or the worker came out of a
    /// stall. Callbacks that ran dry are counted apart from this.
    producer_drops: u64,
    input_rms: Binary32,
    output_rms: Binary32,
    gate_on: bool,
    /// Nothing more is taken in.
    ended: bool,
}

/// What a [`Worker`] holds.
#[verifier::ext_equal]
pub struct WorkerModel {
    pub separator: Option<SeparatorModel>,
    pub tuning: Option<TuningModel>,
    pub samples_processed: u64,
    pub producer_drops: u64,
    pub input_rms: Binary32,
    pub output_rms: Binary32,
    pub gate_on: bool,
    pub ended: bool,
}

impl WorkerModel {
    /// While the worker runs, its separator holds no more than a block.
    pub open spec fn valid(self) -> bool {
        !self.ended ==> (self.separator matches Some(s) ==> s.pending.len()
            <= separation::LIVE_BLOCK_SAMPLES)
    }
}

/// Where the worker's audio goes: the pipeline, and the output queue behind it.
#[derive(Debug)]
pub struct Line<C, Q> {
    pub pipeline: C,
    pub queue: Q,
}

impl View for Worker {
    type V = WorkerModel;

    closed spec fn view(&self) -> WorkerModel {
        WorkerModel {
            separator: match self.separator {
                Some(s) => Some(s@),
                None => None,
            },
            tuning: match self.gate_tuning {
                Some(t) => Some(t@),
                None => None,
            },
            samples_processed: self.samples_processed,
            producer_drops: self.producer_drops,
            input_rms: self.input_rms,
            output_rms: self.output_rms,
            gate_on: self.gate_on,
            ended: self.ended,
        }
    }
}

/// What was answered while a chunk was forwarded, and how it left the pipeline
/// and the queue.
pub struct ForwardReplies<C, Q> {
    pub gate: GateConfig,
    pub output: Result<PipelineOutput, String>,
    pub sent: SendOutcome,
    pub after: Line<C, Q>,
}

/// The speaker gate that the pipeline is told to use, where there are live controls:
/// its own one with the controls applied.
pub open spec fn gate_to_use(m: WorkerModel, own: GateConfig) -> Option<GateConfig> {
    match m.tuning {
        Some(t) => Some(tuned(t, own)),
        None => None,
    }
}

/// Pushing `audio` under `gate` may take a pipeline from `c` to `d` and give
/// `reply`.
pub open spec fn pushed<
    C,
    P: Fn(C, Option<GateConfig>, &[Binary32]) -> (C, Result<PipelineOutput, String>),
>(
    push: P,
    c: C,
    gate: Option<GateConfig>,
    audio: Seq<Binary32>,
    d: C,
    reply: Result<PipelineOutput, String>,
) -> bool {
    exists|a: &[Binary32]| a@ == audio && #[trigger] push.ensures((c, gate, a), (d, reply))
}

/// Sending `audio` may take a queue from `q` to `w` and give `reply`.
pub open spec fn sent_on<Q, S: Fn(Q, Vec<Binary32>) -> (Q, SendOutcome)>(
    send: S,
    q: Q,
    audio: Seq<Binary32>,
    w: Q,
    reply: SendOutcome,
) -> bool {
    exists|v: Vec<Binary32>| v@ == audio && #[trigger] send.ensures((q, v), (w, reply))
}

/// The answers are those to the right questions: `audio` was pushed once, and
/// what came of it was sent once, where there was any.
pub open spec fn forward_asked<
    C,
    Q,
    G: Fn(&C) -> GateConfig,
    P: Fn(C, Option<GateConfig>, &[Binary32]) -> (C, Result<PipelineOutput, String>),
    S: Fn(Q, Vec<Binary32>) -> (Q, SendOutcome),
>(
    own_gate: G,
    push: P,
    send: S,
    m: WorkerModel,
    before: Line<C, Q>,
    audio: Seq<Binary32>,
    t: ForwardReplies<C, Q>,
) -> bool {
    &&& m.tuning is Some ==> own_gate.ensures((&before.pipeline,), t.gate)
    &&& pushed(
        push,
        before.pipeline,
        gate_to_use(m, t.gate),
        audio,
        t.after.pipeline,
        t.output,
    )
    &&& match t.output {
        Ok(o) if o.audio@.len() > 0 => sent_on(
            send,
            before.queue,
            o.audio@,
            t.after.queue,
            t.sent,
        ),
        _ => t.after.queue == before.queue,
    }
}

/// The worker once the answers are in: the diagnostics, the speaker gate light and the
/// output level follow the pipeline, and what the queue took or lost is counted.
pub open spec fn forward_done<C, Q>(m: WorkerModel, t: ForwardReplies<C, Q>) -> WorkerModel {
    match t.output {
        Err(_) => m,
        Ok(o) => WorkerModel {
            tuning: match m.tuning {
                Some(x) => Some(
                    TuningModel {
                        last_score: o.score,
                        effective_threshold: o.effective_threshold,
                        ..x
                    },
                ),
                None => None,
            },
            gate_on: match o.gate {
                Some(on) => on,
                None => m.gate_on,
            },
            output_rms: if o.audio@.len() > 0 {
                audio::level(o.audio@)
            } else {
                m.output_rms
            },
            samples_processed: if o.audio@.len() > 0 && t.sent == SendOutcome::Sent {
                counted(m.samples_processed, o.audio@.len())
            } else {
                m.samples_processed
            },
            producer_drops: if o.audio@.len() > 0 && t.sent == SendOutcome::Full {
                counted(m.producer_drops, 1)
            } else {
                m.producer_drops
            },
            ..m
        },
    }
}

/// A counter after `n` more, which starts over where it ends.
pub open spec fn counted(before: u64, n: nat) -> u64 {
    ((before + n) % 0x1_0000_0000_0000_0000) as u64
}

/// Whether the worker goes on: a full queue costs the chunk, a closed one ends
/// the session.
pub open spec fn forward_result<C, Q>(t: ForwardReplies<C, Q>) -> Result<bool, String> {
    match t.output {
        Err(e) => Err(e),
        Ok(o) => Ok(o.audio@.len() == 0 || t.sent != SendOutcome::Disconnected),
    }
}

fn count(before: u64, n: usize) -> (r: u64)
    ensures
        r == counted(before, n as nat),
{
    let room: u64 = u64::MAX - before;
    if n as u64 <= room {
        before + n as u64
    } else {
        n as u64 - room - 1
    }
}

impl Worker {
    pub fn new(separator: Option<TargetSpeakerSeparator>, gate_tuning: Option<GateTuning>) -> (r:
        Self)
        requires
            separator matches Some(s) ==> s@.pending.len() <= separation::LIVE_BLOCK_SAMPLES,
        ensures
            r@.valid(),
            r@ == (WorkerModel {
                separator: match separator {
                    Some(s) => Some(s@),
                    None => None,
                },
                tuning: match gate_tuning {
                    Some(t) => Some(t@),
                    None => None,
                },
                samples_processed: 0,
                producer_drops: 0,
                input_rms: Binary32 { bits: 0 },
                output_rms: Binary32 { bits: 0 },
                gate_on: false,
                ended: false,
            }),
    {
        Worker {
            separator,
            gate_tuning,
            samples_processed: 0,
            producer_drops: 0,
            input_rms: Binary32 { bits: 0 },
            output_rms: Binary32 { bits: 0 },
            gate_on: false,
            ended: false,
        }
    }

    pub fn samples_processed(&self) -> (r: u64)
        ensures
            r == self@.samples_processed,
    {
        self.samples_processed
    }

    /// Produced chunks that the output queue had no room for.
    pub fn producer_drops(&self) -> (r: u64)
        ensures
            r == self@.producer_drops,
    {
        self.producer_drops
    }

    /// Level of the newest input chunk.
    pub fn input_rms(&self) -> (r: Binary32)
        ensures
            r == self@.input_rms,
    {
        self.input_rms
    }

    /// Level of the newest output chunk.
    pub fn output_rms(&self) -> (r: Binary32)
        ensures
            r == self@.output_rms,
    {
        self.output_rms
    }

    /// Whether audio is currently being passed through.
    pub fn gate_on(&self) -> (r: bool)
        ensures
            r == self@.gate_on,
    {
        self.gate_on
    }

    /// The live gate controls as they stand.
    pub fn gate_tuning(&self) -> (r: Option<GateTuning>)
        ensures
            r is Some <==> self@.tuning is Some,
            r matches Some(t) ==> Some(t@) == self@.tuning,
    {
        self.gate_tuning
    }

    /// Takes over the live gate controls.
    pub fn set_gate_tuning(&mut self, tuning: Option<GateTuning>)
        ensures
            final(self)@ == (WorkerModel {
                tuning: match tuning {
                    Some(t) => Some(t@),
                    None => None,
                },
                ..old(self)@
            }),
    {
        self.gate_tuning = tuning;
    }

    /// The separator's knobs as they stand, where there is a separator.
    pub fn separator_tuning(&self) -> (r: Option<SeparatorTuning>)
        ensures
            r is Some <==> self@.separator is Some,
            r matches Some(t) ==> t.limit() == self@.separator->0.limit && t.last()
                == self@.separator->0.last,
    {
        match &self.separator {
            Some(s) => Some(s.tuning()),
            None => None,
        }
    }

    /// Moves the separator's threshold, where there is a separator.
    pub fn set_separator_threshold(&mut self, value: Binary32)
        ensures
            final(self)@ == (WorkerModel {
                separator: match old(self)@.separator {
                    Some(s) => Some(SeparatorModel { limit: value, ..s }),
                    None => None,
                },
                ..old(self)@
            }),
    {
        let stage: Option<TargetSpeakerSeparator> = self.separator.take();
        if let Some(s) = stage {
            let mut s: TargetSpeakerSeparator = s;
            s.set_threshold(value);
            self.separator = Some(s);
        }
    }

    /// Pushes one selected block through the pipeline and queues its audio.
    pub fn forward_pipeline_audio<C, Q, G, P, S>(
        &mut self,
        audio: &[Binary32],
        line: Line<C, Q>,
        own_gate: &G,
        push: &P,
        send: &S,
    ) -> (r: (Line<C, Q>, Result<bool, String>)) where
        G: Fn(&C) -> GateConfig,
        P: Fn(C, Option<GateConfig>, &[Binary32]) -> (C, Result<PipelineOutput, String>),
        S: Fn(Q, Vec<Binary32>) -> (Q, SendOutcome),

        requires
            forall|c: &C| own_gate.requires((c,)),
            forall|c: C, g: Option<GateConfig>, a: &[Binary32]| push.requires((c, g, a)),
            forall|q: Q, v: Vec<Binary32>| send.requires((q, v)),
        ensures
            exists|t: ForwardReplies<C, Q>| #[trigger]
                forward_asked(*own_gate, *push, *send, old(self)@, line, audio@, t) && r.0
                    == t.after && r.1 == forward_result(t) && final(self)@ == forward_done(
                    old(self)@,
                    t,
                ),
    {
        let (line, r, Ghost(t)) = self.forward(audio, line, own_gate, push, send);
        (line, r)
    }

    fn forward<C, Q, G, P, S>(
        &mut self,
        audio: &[Binary32],
        line: Line<C, Q>,
        own_gate: &G,
        push: &P,
        send: &S,
    ) -> (r: (Line<C, Q>, Result<bool, String>, Ghost<ForwardReplies<C, Q>>)) where
        G: Fn(&C) -> GateConfig,
        P: Fn(C, Option<GateConfig>, &[Binary32]) -> (C, Result<PipelineOutput, String>),
        S: Fn(Q, Vec<Binary32>) -> (Q, SendOutcome),

        requires
            forall|c: &C| own_gate.requires((c,)),
            forall|c: C, g: Option<GateConfig>, a: &[Binary32]| push.requires((c, g, a)),
            forall|q: Q, v: Vec<Binary32>| send.requires((q, v)),
        ensures
            forward_asked(*own_gate, *push, *send, old(self)@, line, audio@, r.2@),
            r.0 == r.2@.after,
            r.1 == forward_result(r.2@),
            final(self)@ == forward_done(old(self)@, r.2@),
    {
        let ghost m = self@;
        let ghost before = line;
        let ghost mut t: ForwardReplies<C, Q> = arbitrary();
        let Line { pipeline, queue } = line;
        let gate: Option<GateConfig> = match &self.gate_tuning {
            Some(tuning) => {
                let own: GateConfig = own_gate(&pipeline);
                proof {
                    t.gate = own;
                }
                Some(tuning.apply_to(own))
            },
            None => None,
        };
        let (pipeline, reply) = push(pipeline, gate, audio);
        proof {
            t.output = reply;
            t.after = Line { pipeline, queue };
            assert(push.ensures((before.pipeline, gate, audio), (pipeline, reply)));
        }
        let out: PipelineOutput = match reply {
            Ok(out) => out,
            Err(e) => {
                return (Line { pipeline, queue }, Err(e), Ghost(t));
            },
        };
        match self.gate_tuning {
            Some(tuning) => {
                let mut tuning: GateTuning = tuning;
                tuning.update_diagnostics(out.score, out.effective_threshold);
                self.gate_tuning = Some(tuning);
            },
            None => {},
        }
        match out.gate {
            Some(on) => {
                self.gate_on = on;
            },
            None => {},
        }
        let n: usize = out.audio.len();
        if n == 0 {
            return (Line { pipeline, queue }, Ok(true), Ghost(t));
        }
        self.output_rms = rms(out.audio.as_slice());
        let ghost v = out.audio;
        let (queue, sent) = send(queue, out.audio);
        proof {
            t.sent = sent;
            t.after = Line { pipeline, queue };
            assert(send.ensures((before.queue, v), (queue, sent)));
        }
        let on: bool = match sent {
            SendOutcome::Sent => {
                self.samples_processed = count(self.samples_processed, n);
                true
            },
            SendOutcome::Full => {
                self.producer_drops = count(self.producer_drops, 1);
                true
            },
            SendOutcome::Disconnected => false,
        };
        (Line { pipeline, queue }, Ok(on), Ghost(t))
    }
}

/// The worker after the first `k` answers.
pub open spec fn forwarded<C, Q>(
    m: WorkerModel,
    replies: Seq<ForwardReplies<C, Q>>,
    k: nat,
) -> WorkerModel
    decreases k,
{
    if k == 0 {
        m
    } else {
        forward_done(forwarded(m, replies, (k - 1) as nat), replies[k - 1])
    }
}

/// The pipeline and the queue after the first `k` answers.
pub open spec fn line_after<C, Q>(
    line: Line<C, Q>,
    replies: Seq<ForwardReplies<C, Q>>,
    k: int,
) -> Line<C, Q> {
    if k <= 0 {
        line
    } else {
        replies[k - 1].after
    }
}

/// Every one of the first `replies.len()` chunks was forwarded once and in
/// order, and all but the last of them let the worker go on.
pub open spec fn all_forwarded<
    C,
    Q,
    G: Fn(&C) -> GateConfig,
    P: Fn(C, Option<GateConfig>, &[Binary32]) -> (C, Result<PipelineOutput, String>),
    S: Fn(Q, Vec<Binary32>) -> (Q, SendOutcome),
>(
    own_gate: G,
    push: P,
    send: S,
    m: WorkerModel,
    line: Line<C, Q>,
    chunks: Seq<Seq<Binary32>>,
    replies: Seq<ForwardReplies<C, Q>>,
) -> bool {
    &&& replies.len() <= chunks.len()
    &&& forall|i: int|
        0 <= i < replies.len() ==> forward_asked(
            own_gate,
            push,
            send,
            forwarded(m, replies, i as nat),
            line_after(line, replies, i),
            chunks[i],
            #[trigger] replies[i],
        )
    &&& forall|i: int|
        0 <= i < replies.len() - 1 ==> forward_result(#[trigger] replies[i]) == Ok::<bool, String>(
            true,
        )
}

/// How the worker goes on after those answers.
pub open spec fn step_after<C, Q>(
    replies: Seq<ForwardReplies<C, Q>>,
    chunks: Seq<Seq<Binary32>>,
    step: WorkerStep,
) -> bool {
    let last = forward_result(replies.last());
    match step {
        WorkerStep::Continue => replies.len() == chunks.len() && (replies.len() > 0 ==> last
            == Ok::<bool, String>(true)),
        WorkerStep::Stop => replies.len() > 0 && last == Ok::<bool, String>(false),
        WorkerStep::Fail(SessionEvent::Error(e)) => replies.len() > 0 && last == Err::<
            bool,
            String,
        >(e),
    }
}

proof fn lemma_forwarded<C, Q>(
    m: WorkerModel,
    a: Seq<ForwardReplies<C, Q>>,
    b: Seq<ForwardReplies<C, Q>>,
    k: nat,
)
    requires
        k <= a.len() <= b.len(),
        forall|i: int| 0 <= i < a.len() ==> a[i] == b[i],
    ensures
        forwarded(m, a, k) == forwarded(m, b, k),
    decreases k,
{
    if k > 0 {
        lemma_forwarded(m, a, b, (k - 1) as nat);
    }
}

/// Forwarding leaves the separator alone, and does not end the worker.
proof fn lemma_separator_stays<C, Q>(
    m: WorkerModel,
    replies: Seq<ForwardReplies<C, Q>>,
    k: nat,
)
    ensures
        forwarded(m, replies, k).separator == m.separator,
        forwarded(m, replies, k).ended == m.ended,
    decreases k,
{
    if k > 0 {
        lemma_separator_stays(m, replies, (k - 1) as nat);
    }
}

proof fn lemma_forwarded_push<
    C,
    Q,
    G: Fn(&C) -> GateConfig,
    P: Fn(C, Option<GateConfig>, &[Binary32]) -> (C, Result<PipelineOutput, String>),
    S: Fn(Q, Vec<Binary32>) -> (Q, SendOutcome),
>(
    own_gate: G,
    push: P,
    send: S,
    m: WorkerModel,
    line: Line<C, Q>,
    chunks: Seq<Seq<Binary32>>,
    replies: Seq<ForwardReplies<C, Q>>,
    t: ForwardReplies<C, Q>,
)
    requires
        all_forwarded(own_gate, push, send, m, line, chunks, replies),
        replies.len() < chunks.len(),
        replies.len() > 0 ==> forward_result(replies.last()) == Ok::<bool, String>(true),
        forward_asked(
            own_gate,
            push,
            send,
            forwarded(m, replies, replies.len()),
            line_after(line, replies, replies.len() as int),
            chunks[replies.len() as int],
            t,
        ),
    ensures
        all_forwarded(own_gate, push, send, m, line, chunks, replies.push(t)),
        forwarded(m, replies.push(t), replies.len() + 1) == forward_done(
            forwarded(m, replies, replies.len()),
            t,
        ),
        line_after(line, replies.push(t), replies.len() as int + 1) == t.after,
{
    let longer = replies.push(t);
    let n = replies.len();
    assert forall|i: int| 0 <= i < longer.len() implies forward_asked(
        own_gate,
        push,
        send,
        forwarded(m, longer, i as nat),
        line_after(line, longer, i),
        chunks[i],
        #[trigger] longer[i],
    ) by {
        lemma_forwarded(m, replies, longer, i as nat);
        assert(line_after(line, longer, i) == line_after(line, replies, i));
        if i < n {
            assert(longer[i] == replies[i]);
        }
    }
    assert forall|i: int| 0 <= i < longer.len() - 1 implies forward_result(
        #[trigger] longer[i],
    ) == Ok::<bool, String>(true) by {
        assert(longer[i] == replies[i]);
    }
    lemma_forwarded(m, replies, longer, n);
}

/// Taking in `chunk` may give `r` and leave `after`: its level is shown, and it
/// goes to the separator where there is one.
#[verifier::opaque]
pub open spec fn received<
    R: Fn(&[Binary32], u32, u32) -> Result<Vec<Binary32>, String>,
    D: Fn(&[Binary32]) -> Result<(Vec<Binary32>, Vec<Binary32>), String>,
    E: Fn(&[Binary32]) -> Result<Vec<Binary32>, String>,
>(
    resample: R,
    separate: D,
    embed: E,
    m: WorkerModel,
    chunk: Seq<Binary32>,
    r: Result<Vec<Vec<Binary32>>, SessionEvent>,
    after: WorkerModel,
) -> bool {
    let heard = WorkerModel {
        input_rms: if chunk.len() > 0 {
            audio::level(chunk)
        } else {
            m.input_rms
        },
        ..m
    };
    match m.separator {
        None => after == heard && (r matches Ok(v) && vectors::rows(v@) == seq![chunk]),
        Some(before) => {
            let all = before.pending + chunk;
            match r {
                Ok(v) => exists|
                    replies: Seq<BlockReplies>,
                    done: Seq<Vec<Binary32>>,
                    left: SeparatorModel,
                | #[trigger]
                    separation::all_selected(
                        resample,
                        separate,
                        embed,
                        before,
                        all,
                        replies,
                        done,
                        left,
                    ) && v@ == done && after == (WorkerModel { separator: Some(left), ..heard }),
                Err(SessionEvent::Error(e)) => exists|
                    replies: Seq<BlockReplies>,
                    done: Seq<Vec<Binary32>>,
                    error: String,
                    left: SeparatorModel,
                | #[trigger]
                    separation::selection_failed(
                        resample,
                        separate,
                        embed,
                        before,
                        all,
                        replies,
                        done,
                        error,
                        left,
                    ) && e@ == "target speaker separation: "@ + error@ && after == (WorkerModel {
                        separator: Some(left),
                        ..heard
                    }),
            }
        },
    }
}

/// What happened while a chunk was taken in.
pub struct TakeReplies<C, Q> {
    /// What the separator made of it, and the worker after that.
    pub selected: Result<Vec<Vec<Binary32>>, SessionEvent>,
    pub heard: WorkerModel,
    /// What was answered while that was forwarded.
    pub forward: Seq<ForwardReplies<C, Q>>,
}

/// Taking in `chunk` may leave the worker as `after` and the line as `end`, and
/// go on with `step`: what the separator selects is forwarded once and in order,
/// and what ends the session ends the worker. A worker that has ended does
/// nothing.
#[verifier::opaque]
pub open spec fn taken<
    C,
    Q,
    G: Fn(&C) -> GateConfig,
    P: Fn(C, Option<GateConfig>, &[Binary32]) -> (C, Result<PipelineOutput, String>),
    S: Fn(Q, Vec<Binary32>) -> (Q, SendOutcome),
    R: Fn(&[Binary32], u32, u32) -> Result<Vec<Binary32>, String>,
    D: Fn(&[Binary32]) -> Result<(Vec<Binary32>, Vec<Binary32>), String>,
    E: Fn(&[Binary32]) -> Result<Vec<Binary32>, String>,
>(
    resample: R,
    separate: D,
    embed: E,
    own_gate: G,
    push: P,
    send: S,
    m: WorkerModel,
    line: Line<C, Q>,
    chunk: Seq<Binary32>,
    t: TakeReplies<C, Q>,
    step: WorkerStep,
    end: Line<C, Q>,
    after: WorkerModel,
) -> bool {
    if m.ended {
        step is Stop && end == line && after == m
    } else {
        &&& received(resample, separate, embed, m, chunk, t.selected, t.heard)
        &&& match t.selected {
            Err(event) => {
                &&& step == WorkerStep::Fail(event)
                &&& end == line
                &&& after == (WorkerModel { ended: true, ..t.heard })
            },
            Ok(v) => {
                let chunks = vectors::rows(v@);
                &&& all_forwarded(own_gate, push, send, t.heard, line, chunks, t.forward)
                &&& step_after(t.forward, chunks, step)
                &&& end == line_after(line, t.forward, t.forward.len() as int)
                &&& after == (WorkerModel {
                    ended: step !is Continue,
                    ..forwarded(t.heard, t.forward, t.forward.len())
                })
            },
        }
    }
}

impl Worker {
    /// Forwards the selected chunks in order, until one of them ends the
    /// session.
    #[verifier::rlimit(60)]
    #[verifier::spinoff_prover]
    fn forward_all<C, Q, G, P, S>(
        &mut self,
        chunks: &Vec<Vec<Binary32>>,
        line: Line<C, Q>,
        own_gate: &G,
        push: &P,
        send: &S,
    ) -> (r: (Line<C, Q>, WorkerStep, Ghost<Seq<ForwardReplies<C, Q>>>)) where
        G: Fn(&C) -> GateConfig,
        P: Fn(C, Option<GateConfig>, &[Binary32]) -> (C, Result<PipelineOutput, String>),
        S: Fn(Q, Vec<Binary32>) -> (Q, SendOutcome),

        requires
            forall|c: &C| own_gate.requires((c,)),
            forall|c: C, g: Option<GateConfig>, a: &[Binary32]| push.requires((c, g, a)),
            forall|q: Q, v: Vec<Binary32>| send.requires((q, v)),
        ensures
            all_forwarded(
                *own_gate,
                *push,
                *send,
                old(self)@,
                line,
                vectors::rows(chunks@),
                r.2@,
            ),
            step_after(r.2@, vectors::rows(chunks@), r.1),
            r.0 == line_after(line, r.2@, r.2@.len() as int),
            final(self)@ == forwarded(old(self)@, r.2@, r.2@.len()),
    {
        let ghost m = self@;
        let ghost c = vectors::rows(chunks@);
        let ghost mut replies: Seq<ForwardReplies<C, Q>> = Seq::empty();
        let mut now: Line<C, Q> = line;
        let mut i: usize = 0;
        while i < chunks.len()
            invariant
                i <= chunks@.len(),
                m == old(self)@,
                c == vectors::rows(chunks@),
                replies.len() == i,
                all_forwarded(*own_gate, *push, *send, m, line, c, replies),
                replies.len() > 0 ==> forward_result(replies.last()) == Ok::<bool, String>(true),
                self@ == forwarded(m, replies, i as nat),
                now == line_after(line, replies, i as int),
                forall|c: &C| own_gate.requires((c,)),
                forall|c: C, g: Option<GateConfig>, a: &[Binary32]| push.requires((c, g, a)),
                forall|q: Q, v: Vec<Binary32>| send.requires((q, v)),
            decreases chunks@.len() - i,
        {
            let (next, outcome, Ghost(t)) = self.forward(
                chunks[i].as_slice(),
                now,
                own_gate,
                push,
                send,
            );
            now = next;
            proof {
                assert(c[i as int] == chunks@[i as int]@);
                lemma_forwarded_push(*own_gate, *push, *send, m, line, c, replies, t);
                replies = replies.push(t);
            }
            match outcome {
                Ok(true) => {},
                Ok(false) => {
                    return (now, WorkerStep::Stop, Ghost(replies));
                },
                Err(e) => {
                    return (now, WorkerStep::Fail(SessionEvent::Error(e)), Ghost(replies));
                },
            }
            i = i + 1;
        }
        (now, WorkerStep::Continue, Ghost(replies))
    }

    /// Takes in one chunk: its level is shown, and it goes to the separator
    /// where there is one. What comes back is to be forwarded.
    fn receive<R, D, E>(
        &mut self,
        chunk: Vec<Binary32>,
        resample: &R,
        separate: &D,
        embed: &E,
    ) -> (r: Result<Vec<Vec<Binary32>>, SessionEvent>) where
        R: Fn(&[Binary32], u32, u32) -> Result<Vec<Binary32>, String>,
        D: Fn(&[Binary32]) -> Result<(Vec<Binary32>, Vec<Binary32>), String>,
        E: Fn(&[Binary32]) -> Result<Vec<Binary32>, String>,

        requires
            forall|a: &[Binary32], from: u32, to: u32| resample.requires((a, from, to)),
            forall|a: &[Binary32]| separate.requires((a,)),
            forall|a: &[Binary32]| embed.requires((a,)),
        ensures
            received(*resample, *separate, *embed, old(self)@, chunk@, r, final(self)@),
    {
        proof {
            reveal(received);
        }
        if chunk.len() > 0 {
            self.input_rms = rms(chunk.as_slice());
        }
        let stage: Option<TargetSpeakerSeparator> = self.separator.take();
        match stage {
            Some(stage) => {
                let mut stage: TargetSpeakerSeparator = stage;
                let outcome: Result<Vec<Vec<Binary32>>, String> = stage.push(
                    chunk.as_slice(),
                    resample,
                    separate,
                    embed,
                );
                self.separator = Some(stage);
                match outcome {
                    Ok(v) => Ok(v),
                    Err(e) => Err(
                        SessionEvent::Error(
                            text::joined("target speaker separation: ", e.as_str()),
                        ),
                    ),
                }
            },
            None => {
                let mut v: Vec<Vec<Binary32>> = Vec::new();
                let ghost c = chunk@;
                v.push(chunk);
                assert(vectors::rows(v@) =~= seq![c]);
                Ok(v)
            },
        }
    }

    /// Handles one chunk of input: the separator selects from it where there is
    /// one, and what is selected goes through the pipeline and on to the output
    /// queue, once and in order. A failure is reported and ends the worker, and
    /// so does an output that is gone; after that nothing is taken in any more.
    pub fn take<C, Q, G, P, S, R, D, E>(
        &mut self,
        chunk: Vec<Binary32>,
        line: Line<C, Q>,
        resample: &R,
        separate: &D,
        embed: &E,
        own_gate: &G,
        push: &P,
        send: &S,
    ) -> (r: (Line<C, Q>, WorkerStep)) where
        G: Fn(&C) -> GateConfig,
        P: Fn(C, Option<GateConfig>, &[Binary32]) -> (C, Result<PipelineOutput, String>),
        S: Fn(Q, Vec<Binary32>) -> (Q, SendOutcome),
        R: Fn(&[Binary32], u32, u32) -> Result<Vec<Binary32>, String>,
        D: Fn(&[Binary32]) -> Result<(Vec<Binary32>, Vec<Binary32>), String>,
        E: Fn(&[Binary32]) -> Result<Vec<Binary32>, String>,

        requires
            old(self)@.valid(),
            forall|c: &C| own_gate.requires((c,)),
            forall|c: C, g: Option<GateConfig>, a: &[Binary32]| push.requires((c, g, a)),
            forall|q: Q, v: Vec<Binary32>| send.requires((q, v)),
            forall|a: &[Binary32], from: u32, to: u32| resample.requires((a, from, to)),
            forall|a: &[Binary32]| separate.requires((a,)),
            forall|a: &[Binary32]| embed.requires((a,)),
        ensures
            final(self)@.valid(),
            exists|t: TakeReplies<C, Q>, step: WorkerStep, end: Line<C, Q>, after: WorkerModel|
                #[trigger] taken(
                    *resample,
                    *separate,
                    *embed,
                    *own_gate,
                    *push,
                    *send,
                    old(self)@,
                    line,
                    chunk@,
                    t,
                    step,
                    end,
                    after,
                ) && r == (end, step) && final(self)@ == after,
    {
        let ghost m = self@;
        let ghost start = line;
        let ghost c = chunk@;
        let ghost mut t: TakeReplies<C, Q> = arbitrary();
        proof {
            reveal(taken);
        }
        if self.ended {
            let step: WorkerStep = WorkerStep::Stop;
            assert(taken(
                *resample, *separate, *embed, *own_gate, *push, *send, m, start, c, t, step, line,
                self@,
            ));
            return (line, step);
        }
        let selected: Result<Vec<Vec<Binary32>>, SessionEvent> = self.receive(
            chunk,
            resample,
            separate,
            embed,
        );
        proof {
            t.selected = selected;
            t.heard = self@;
        }
        match selected {
            Err(event) => {
                self.ended = true;
                let step: WorkerStep = WorkerStep::Fail(event);
                assert(taken(
                    *resample, *separate, *embed, *own_gate, *push, *send, m, start, c, t, step,
                    line, self@,
                ));
                (line, step)
            },
            Ok(chunks) => {
                let (line, step, Ghost(forward)) = self.forward_all(
                    &chunks,
                    line,
                    own_gate,
                    push,
                    send,
                );
                match step {
                    WorkerStep::Continue => {},
                    _ => {
                        self.ended = true;
                    },
                }
                proof {
                    t.forward = forward;
                    lemma_separator_stays(t.heard, forward, forward.len());
                    lemma_room(*resample, *separate, *embed, m, c, selected, t.heard);
                    assert(taken(
                        *resample, *separate, *embed, *own_gate, *push, *send, m, start, c, t,
                        step, line, self@,
                    ));
                }
                (line, step)
            },
        }
    }

    /// What the separator still holds when the input has ended, to be
    /// forwarded.
    fn drain<R, D, E>(&mut self, resample: &R, separate: &D, embed: &E) -> (r: Result<
        Option<Vec<Binary32>>,
        SessionEvent,
    >) where
        R: Fn(&[Binary32], u32, u32) -> Result<Vec<Binary32>, String>,
        D: Fn(&[Binary32]) -> Result<(Vec<Binary32>, Vec<Binary32>), String>,
        E: Fn(&[Binary32]) -> Result<Vec<Binary32>, String>,

        requires
            old(self)@.separator matches Some(s) ==> s.pending.len()
                <= separation::LIVE_BLOCK_SAMPLES,
            forall|a: &[Binary32], from: u32, to: u32| resample.requires((a, from, to)),
            forall|a: &[Binary32]| separate.requires((a,)),
            forall|a: &[Binary32]| embed.requires((a,)),
        ensures
            drained(*resample, *separate, *embed, old(self)@, r, final(self)@),
    {
        let stage: Option<TargetSpeakerSeparator> = self.separator.take();
        match stage {
            Some(stage) => {
                let mut stage: TargetSpeakerSeparator = stage;
                let outcome: Result<Option<Vec<Binary32>>, String> = stage.flush(
                    resample,
                    separate,
                    embed,
                );
                self.separator = Some(stage);
                match outcome {
                    Ok(v) => Ok(v),
                    Err(e) => Err(
                        SessionEvent::Error(
                            text::joined("target speaker separation flush: ", e.as_str()),
                        ),
                    ),
                }
            },
            None => Ok(None),
        }
    }

    /// Ends the session once the input has ended: what the separator still
    /// holds is forwarded, then the pipeline is flushed, and what it still held
    /// is queued last. A drain that failed is reported, and the pipeline is
    /// flushed all the same; a flush that failed is passed over. A worker that
    /// has ended before does nothing.
    pub fn close<C, Q, G, P, S, R, D, E, F>(
        &mut self,
        line: Line<C, Q>,
        resample: &R,
        separate: &D,
        embed: &E,
        own_gate: &G,
        push: &P,
        send: &S,
        flush: F,
    ) -> (r: (Line<C, Q>, Option<SessionEvent>)) where
        G: Fn(&C) -> GateConfig,
        P: Fn(C, Option<GateConfig>, &[Binary32]) -> (C, Result<PipelineOutput, String>),
        S: Fn(Q, Vec<Binary32>) -> (Q, SendOutcome),
        R: Fn(&[Binary32], u32, u32) -> Result<Vec<Binary32>, String>,
        D: Fn(&[Binary32]) -> Result<(Vec<Binary32>, Vec<Binary32>), String>,
        E: Fn(&[Binary32]) -> Result<Vec<Binary32>, String>,
        F: FnOnce(C) -> (C, Result<Vec<Binary32>, String>),

        requires
            old(self)@.valid(),
            forall|c: &C| own_gate.requires((c,)),
            forall|c: C, g: Option<GateConfig>, a: &[Binary32]| push.requires((c, g, a)),
            forall|q: Q, v: Vec<Binary32>| send.requires((q, v)),
            forall|a: &[Binary32], from: u32, to: u32| resample.requires((a, from, to)),
            forall|a: &[Binary32]| separate.requires((a,)),
            forall|a: &[Binary32]| embed.requires((a,)),
            forall|c: C| flush.requires((c,)),
        ensures
            final(self)@.ended,
            old(self)@.ended ==> r.0 == line && r.1 is None && final(self)@ == old(self)@,
            !old(self)@.ended ==> exists|t: CloseReplies<C, Q>| #[trigger]
                close_asked(
                    *resample,
                    *separate,
                    *embed,
                    *own_gate,
                    *push,
                    *send,
                    flush,
                    old(self)@,
                    line,
                    t,
                ) && r.0 == t.end && r.1 == close_event(t) && final(self)@ == close_done(t),
    {
        if self.ended {
            return (line, None);
        }
        let ghost m = self@;
        let ghost start = line;
        let ghost mut t: CloseReplies<C, Q> = arbitrary();
        let drain: Result<Option<Vec<Binary32>>, SessionEvent> = self.drain(
            resample,
            separate,
            embed,
        );
        proof {
            t.rest = drain;
            t.drained = self@;
        }
        let (line, event): (Line<C, Q>, Option<SessionEvent>) = match drain {
            Ok(Some(rest)) => {
                let (line, _, Ghost(asked)) = self.forward(
                    rest.as_slice(),
                    line,
                    own_gate,
                    push,
                    send,
                );
                proof {
                    t.forward = asked;
                }
                (line, None)
            },
            Ok(None) => (line, None),
            Err(event) => (line, Some(event)),
        };
        let ghost before = line;
        assert(before == line_before_tail(start, t));
        let Line { pipeline, queue } = line;
        let (pipeline, tail) = flush(pipeline);
        proof {
            t.tail = tail;
            t.end = Line { pipeline, queue };
            assert(flush.ensures((before.pipeline,), (pipeline, tail)));
        }
        self.ended = true;
        let end: Line<C, Q> = match tail {
            Ok(v) => {
                self.samples_processed = count(self.samples_processed, v.len());
                if v.len() > 0 {
                    let ghost held = v;
                    let (queue, sent) = send(queue, v);
                    proof {
                        t.sent = sent;
                        t.end = Line { pipeline, queue };
                        assert(send.ensures((before.queue, held), (queue, sent)));
                    }
                    Line { pipeline, queue }
                } else {
                    Line { pipeline, queue }
                }
            },
            Err(_) => Line { pipeline, queue },
        };
        proof {
            assert(close_asked(
                *resample, *separate, *embed, *own_gate, *push, *send, flush, m, start, t,
            ));
        }
        (end, event)
    }
}

/// What a chunk leaves in the separator is less than a block.
proof fn lemma_room<
    R: Fn(&[Binary32], u32, u32) -> Result<Vec<Binary32>, String>,
    D: Fn(&[Binary32]) -> Result<(Vec<Binary32>, Vec<Binary32>), String>,
    E: Fn(&[Binary32]) -> Result<Vec<Binary32>, String>,
>(
    resample: R,
    separate: D,
    embed: E,
    m: WorkerModel,
    chunk: Seq<Binary32>,
    r: Result<Vec<Vec<Binary32>>, SessionEvent>,
    after: WorkerModel,
)
    requires
        received(resample, separate, embed, m, chunk, r, after),
        r is Ok,
    ensures
        after.separator matches Some(s) ==> s.pending.len() < separation::LIVE_BLOCK_SAMPLES,
        after.ended == m.ended,
{
    reveal(received);
    if m.separator is Some {
        let all = m.separator->0.pending + chunk;
        resampler::lemma_residue(all, separation::LIVE_BLOCK_SAMPLES as nat);
    }
}

/// Draining may give `r` and leave `after`: nothing where the separator holds
/// nothing, else what its last, padded block comes to.
pub open spec fn drained<
    R: Fn(&[Binary32], u32, u32) -> Result<Vec<Binary32>, String>,
    D: Fn(&[Binary32]) -> Result<(Vec<Binary32>, Vec<Binary32>), String>,
    E: Fn(&[Binary32]) -> Result<Vec<Binary32>, String>,
>(
    resample: R,
    separate: D,
    embed: E,
    m: WorkerModel,
    r: Result<Option<Vec<Binary32>>, SessionEvent>,
    after: WorkerModel,
) -> bool {
    match m.separator {
        None => r == Ok::<Option<Vec<Binary32>>, SessionEvent>(None) && after == m,
        Some(before) => if before.pending.len() == 0 {
            r == Ok::<Option<Vec<Binary32>>, SessionEvent>(None) && after == m
        } else {
            let block = audio::fitted(before.pending, separation::LIVE_BLOCK_SAMPLES as nat);
            let valid = before.pending.len();
            exists|t: BlockReplies| #[trigger]
                separation::block_asked(resample, separate, embed, before, block, valid, t) && (
                match r {
                    Ok(o) => o matches Some(v) && separation::block_outcome(
                        before,
                        block,
                        valid,
                        t,
                    ) == Ok::<Seq<Binary32>, String>(v@),
                    Err(SessionEvent::Error(e)) => separation::block_outcome(
                        before,
                        block,
                        valid,
                        t,
                    ) matches Err(x) && e@ == "target speaker separation flush: "@ + x@,
                }) && after == (WorkerModel {
                    separator: Some(
                        SeparatorModel {
                            pending: Seq::empty(),
                            ..separation::block_done(before, block, valid, t)
                        },
                    ),
                    ..m
                })
        },
    }
}

/// What happened while a worker was closed.
pub struct CloseReplies<C, Q> {
    /// What draining gave, and the worker after it.
    pub rest: Result<Option<Vec<Binary32>>, SessionEvent>,
    pub drained: WorkerModel,
    /// What was answered while that was forwarded.
    pub forward: ForwardReplies<C, Q>,
    /// What the pipeline still held, and what became of it on the queue.
    pub tail: Result<Vec<Binary32>, String>,
    pub sent: SendOutcome,
    pub end: Line<C, Q>,
}

/// The pipeline and the queue before the flush: behind what the separator still
/// held, where that was anything.
pub open spec fn line_before_tail<C, Q>(line: Line<C, Q>, t: CloseReplies<C, Q>) -> Line<C, Q> {
    match t.rest {
        Ok(Some(_)) => t.forward.after,
        _ => line,
    }
}

/// The separator was drained, what it held was forwarded where there was any,
/// then the pipeline was flushed in any case, and its tail queued.
pub open spec fn close_asked<
    C,
    Q,
    G: Fn(&C) -> GateConfig,
    P: Fn(C, Option<GateConfig>, &[Binary32]) -> (C, Result<PipelineOutput, String>),
    S: Fn(Q, Vec<Binary32>) -> (Q, SendOutcome),
    R: Fn(&[Binary32], u32, u32) -> Result<Vec<Binary32>, String>,
    D: Fn(&[Binary32]) -> Result<(Vec<Binary32>, Vec<Binary32>), String>,
    E: Fn(&[Binary32]) -> Result<Vec<Binary32>, String>,
    F: FnOnce(C) -> (C, Result<Vec<Binary32>, String>),
>(
    resample: R,
    separate: D,
    embed: E,
    own_gate: G,
    push: P,
    send: S,
    flush: F,
    m: WorkerModel,
    line: Line<C, Q>,
    t: CloseReplies<C, Q>,
) -> bool {
    let before = line_before_tail(line, t);
    &&& drained(resample, separate, embed, m, t.rest, t.drained)
    &&& t.rest matches Ok(Some(rest)) ==> forward_asked(
        own_gate,
        push,
        send,
        t.drained,
        line,
        rest@,
        t.forward,
    )
    &&& flush.ensures((before.pipeline,), (t.end.pipeline, t.tail))
    &&& match t.tail {
        Ok(v) if v@.len() > 0 => sent_on(send, before.queue, v@, t.end.queue, t.sent),
        _ => t.end.queue == before.queue,
    }
}

/// The worker before the tail of the pipeline is counted. How forwarding went
/// makes no difference to what follows, and neither does a failed drain.
pub open spec fn before_tail<C, Q>(t: CloseReplies<C, Q>) -> WorkerModel {
    match t.rest {
        Ok(Some(_)) => forward_done(t.drained, t.forward),
        _ => t.drained,
    }
}

/// The worker after its end: the tail is counted, whatever became of it.
pub open spec fn close_done<C, Q>(t: CloseReplies<C, Q>) -> WorkerModel {
    let m = before_tail(t);
    WorkerModel {
        samples_processed: match t.tail {
            Ok(v) => counted(m.samples_processed, v@.len()),
            Err(_) => m.samples_processed,
        },
        ended: true,
        ..m
    }
}

/// The event that closing reports: a failed drain.
pub open spec fn close_event<C, Q>(t: CloseReplies<C, Q>) -> Option<SessionEvent> {
    match t.rest {
        Err(event) => Some(event),
        Ok(_) => None,
    }
}

/// A worker over a number of chunks: chunk `i` took it from `models[i]` to
/// `models[i + 1]` and its line from `lines[i]` to `lines[i + 1]`, and went on
/// with `steps[i]`.
pub open spec fn is_session<
    C,
    Q,
    G: Fn(&C) -> GateConfig,
    P: Fn(C, Option<GateConfig>, &[Binary32]) -> (C, Result<PipelineOutput, String>),
    S: Fn(Q, Vec<Binary32>) -> (Q, SendOutcome),
    R: Fn(&[Binary32], u32, u32) -> Result<Vec<Binary32>, String>,
    D: Fn(&[Binary32]) -> Result<(Vec<Binary32>, Vec<Binary32>), String>,
    E: Fn(&[Binary32]) -> Result<Vec<Binary32>, String>,
>(
    resample: R,
    separate: D,
    embed: E,
    own_gate: G,
    push: P,
    send: S,
    chunks: Seq<Seq<Binary32>>,
    replies: Seq<TakeReplies<C, Q>>,
    steps: Seq<WorkerStep>,
    lines: Seq<Line<C, Q>>,
    models: Seq<WorkerModel>,
) -> bool {
    &&& chunks.len() == replies.len() == steps.len()
    &&& lines.len() == models.len() == chunks.len() + 1
    &&& forall|i: int|
        0 <= i < chunks.len() ==> taken(
            resample,
            separate,
            embed,
            own_gate,
            push,
            send,
            models[i],
            lines[i],
            #[trigger] chunks[i],
            replies[i],
            steps[i],
            lines[i + 1],
            models[i + 1],
        )
}

/// What ends the session ends the worker, and one that has ended does nothing.
proof fn lemma_step<
    C,
    Q,
    G: Fn(&C) -> GateConfig,
    P: Fn(C, Option<GateConfig>, &[Binary32]) -> (C, Result<PipelineOutput, String>),
    S: Fn(Q, Vec<Binary32>) -> (Q, SendOutcome),
    R: Fn(&[Binary32], u32, u32) -> Result<Vec<Binary32>, String>,
    D: Fn(&[Binary32]) -> Result<(Vec<Binary32>, Vec<Binary32>), String>,
    E: Fn(&[Binary32]) -> Result<Vec<Binary32>, String>,
>(
    resample: R,
    separate: D,
    embed: E,
    own_gate: G,
    push: P,
    send: S,
    m: WorkerModel,
    line: Line<C, Q>,
    chunk: Seq<Binary32>,
    t: TakeReplies<C, Q>,
    step: WorkerStep,
    end: Line<C, Q>,
    after: WorkerModel,
)
    requires
        taken(
            resample,
            separate,
            embed,
            own_gate,
            push,
            send,
            m,
            line,
            chunk,
            t,
            step,
            end,
            after,
        ),
    ensures
        step !is Continue ==> after.ended,
        m.ended ==> step is Stop && end == line && after == m,
{
    reveal(taken);
}

/// After a failure no later chunk is processed: nothing reaches the pipeline or
/// the queue any more, the worker stays as it is, and nothing else is reported.
/// What came before it has gone on in order, as each step says.
pub proof fn law_nothing_follows_a_failure<
    C,
    Q,
    G: Fn(&C) -> GateConfig,
    P: Fn(C, Option<GateConfig>, &[Binary32]) -> (C, Result<PipelineOutput, String>),
    S: Fn(Q, Vec<Binary32>) -> (Q, SendOutcome),
    R: Fn(&[Binary32], u32, u32) -> Result<Vec<Binary32>, String>,
    D: Fn(&[Binary32]) -> Result<(Vec<Binary32>, Vec<Binary32>), String>,
    E: Fn(&[Binary32]) -> Result<Vec<Binary32>, String>,
>(
    resample: R,
    separate: D,
    embed: E,
    own_gate: G,
    push: P,
    send: S,
    chunks: Seq<Seq<Binary32>>,
    replies: Seq<TakeReplies<C, Q>>,
    steps: Seq<WorkerStep>,
    lines: Seq<Line<C, Q>>,
    models: Seq<WorkerModel>,
    k: int,
    n: int,
)
    requires
        is_session(
            resample,
            separate,
            embed,
            own_gate,
            push,
            send,
            chunks,
            replies,
            steps,
            lines,
            models,
        ),
        0 <= k < n <= chunks.len(),
        steps[k] !is Continue,
    ensures
        models[n] == models[k + 1],
        models[n].ended,
        lines[n] == lines[k + 1],
        n < chunks.len() ==> steps[n] is Stop,
    decreases n - k,
{
    lemma_step(
        resample, separate, embed, own_gate, push, send, models[k], lines[k], chunks[k], replies[k],
        steps[k], lines[k + 1], models[k + 1],
    );
    if n > k + 1 {
        law_nothing_follows_a_failure(
            resample, separate, embed, own_gate, push, send, chunks, replies, steps, lines, models,
            k, n - 1,
        );
        lemma_step(
            resample, separate, embed, own_gate, push, send, models[n - 1], lines[n - 1],
            chunks[n - 1], replies[n - 1], steps[n - 1], lines[n], models[n],
        );
    }
    if n < chunks.len() {
        lemma_step(
            resample, separate, embed, own_gate, push, send, models[n], lines[n], chunks[n],
            replies[n], steps[n], lines[n + 1], models[n + 1],
        );
    }
}

/// The input callback: brings a device's samples to the internal rate and
/// counts the chunks that the queue had no room for.
#[derive(Debug)]
pub struct InputStage {
    pub resampler: Option<StreamingResampler>,
    pub overruns: u64,
}

impl InputStage {
    pub fn new(device_rate: u32) -> (r: Self)
        ensures
            r.resampler is None <==> device_rate == audio::INTERNAL_SAMPLE_RATE,
            r.resampler matches Some(s) ==> s@ == Seq::<Binary32>::empty(),
            r.overruns == 0,
    {
        InputStage {
            resampler: StreamingResampler::new(device_rate, audio::INTERNAL_SAMPLE_RATE),
            overruns: 0,
        }
    }

    /// The chunk to queue for one callback's mono samples, if there is any. The
    /// converter comes back with it.
    pub fn process<C, X>(&mut self, mono: Vec<Binary32>, converter: C, run: &X) -> (r: (
        C,
        Result<Option<Vec<Binary32>>, String>,
    )) where X: Fn(C, &[Binary32]) -> (C, Result<Vec<Binary32>, String>)
        requires
            old(self).resampler is Some ==> forall|c: C, a: &[Binary32]|
                a@.len() == resampler::BLOCK_FRAMES ==> #[trigger] run.requires((c, a)),
        ensures
            final(self).overruns == old(self).overruns,
            final(self).resampler is Some <==> old(self).resampler is Some,
            match old(self).resampler {
                None => r.0 == converter && r.1 == Ok::<Option<Vec<Binary32>>, String>(
                    if mono@.len() > 0 {
                        Some(mono)
                    } else {
                        None
                    },
                ),
                Some(before) => exists|
                    states: Seq<C>,
                    out: Result<Vec<Binary32>, String>,
                    after: Seq<Binary32>,
                | #[trigger]
                    resampler::blocks_converted(
                        *run,
                        before@,
                        mono@,
                        states,
                        out,
                        after,
                    ) && states[0] == converter && states.last() == r.0
                        && final(self).resampler->0@ == after && r.1 == (match out {
                        Ok(v) => Ok::<Option<Vec<Binary32>>, String>(
                            if v@.len() > 0 {
                                Some(v)
                            } else {
                                None
                            },
                        ),
                        Err(e) => Err(e),
                    }),
            },
    {
        let stage: Option<StreamingResampler> = self.resampler.take();
        let (converter, processed): (C, Result<Vec<Binary32>, String>) = match stage {
            Some(s) => {
                let mut s: StreamingResampler = s;
                let out: (C, Result<Vec<Binary32>, String>) = s.process(
                    mono.as_slice(),
                    converter,
                    run,
                );
                self.resampler = Some(s);
                out
            },
            None => (converter, Ok(mono)),
        };
        match processed {
            Ok(v) => if v.len() > 0 {
                (converter, Ok(Some(v)))
            } else {
                (converter, Ok(None))
            },
            Err(e) => (converter, Err(e)),
        }
    }

    /// Counts a chunk that the queue had no room for. One that came after the
    /// session had ended is no loss.
    pub fn note_sent(&mut self, outcome: SendOutcome)
        ensures
            final(self).resampler == old(self).resampler,
            final(self).overruns == (if outcome == SendOutcome::Full {
                counted(old(self).overruns, 1)
            } else {
                old(self).overruns
            }),
    {
        match outcome {
            SendOutcome::Full => {
                self.overruns = count(self.overruns, 1);
            },
            _ => {},
        }
    }
}

/// The output callback: brings produced chunks to the device's rate, buffers
/// them, and fills the device's frames.
#[derive(Debug)]
pub struct OutputStage {
    pub resampler: Option<StreamingResampler>,
    pub playback: PlaybackBuffer,
    pub underruns: u64,
}

impl OutputStage {
    pub fn new(device_rate: u32) -> (r: Self)
        ensures
            r.resampler is None <==> device_rate == audio::INTERNAL_SAMPLE_RATE,
            r.resampler matches Some(s) ==> s@ == Seq::<Binary32>::empty(),
            r.playback.samples@.len() == 0,
            !r.playback.started,
            r.playback.target_fill == crate::playback::millis_to_samples(
                device_rate,
                crate::playback::OUTPUT_TARGET_BUFFER_MS,
            ),
            r.playback.start_fill == crate::playback::millis_to_samples(
                device_rate,
                crate::playback::OUTPUT_PREBUFFER_MS,
            ),
            r.playback.read_position.bits == 0,
            r.playback.fade_total == (if crate::playback::millis_to_samples(
                device_rate,
                crate::playback::PLAYBACK_FADE_MS,
            ) == 0 {
                1
            } else {
                crate::playback::millis_to_samples(device_rate, crate::playback::PLAYBACK_FADE_MS)
            }),
            r.playback.fade_remaining == 0,
            r.playback.last_output.bits == 0,
            r.underruns == 0,
    {
        OutputStage {
            resampler: StreamingResampler::new(audio::INTERNAL_SAMPLE_RATE, device_rate),
            playback: PlaybackBuffer::new(device_rate),
            underruns: 0,
        }
    }

    /// Buffers one produced chunk. What cannot be converted is dropped. The
    /// converter comes back.
    pub fn accept<C, X>(&mut self, chunk: Vec<Binary32>, converter: C, run: &X) -> (r: C) where
        X: Fn(C, &[Binary32]) -> (C, Result<Vec<Binary32>, String>),

        requires
            old(self).resampler is Some ==> forall|c: C, a: &[Binary32]|
                a@.len() == resampler::BLOCK_FRAMES ==> #[trigger] run.requires((c, a)),
        ensures
            final(self).underruns == old(self).underruns,
            final(self).playback.same_but_for_samples(old(self).playback),
            final(self).resampler is Some <==> old(self).resampler is Some,
            match old(self).resampler {
                None => r == converter && final(self).playback.samples@
                    == old(self).playback.samples@ + chunk@,
                Some(before) => exists|
                    states: Seq<C>,
                    out: Result<Vec<Binary32>, String>,
                    after: Seq<Binary32>,
                | #[trigger]
                    resampler::blocks_converted(
                        *run,
                        before@,
                        chunk@,
                        states,
                        out,
                        after,
                    ) && states[0] == converter && states.last() == r
                        && final(self).resampler->0@ == after && final(self).playback.samples@
                        == old(self).playback.samples@ + (match out {
                        Ok(v) => v@,
                        Err(_) => Seq::empty(),
                    }),
            },
    {
        let stage: Option<StreamingResampler> = self.resampler.take();
        let (converter, resampled): (C, Vec<Binary32>) = match stage {
            Some(s) => {
                let mut s: StreamingResampler = s;
                let (converter, out): (C, Result<Vec<Binary32>, String>) = s.process(
                    chunk.as_slice(),
                    converter,
                    run,
                );
                self.resampler = Some(s);
                match out {
                    Ok(v) => (converter, v),
                    Err(_) => {
                        let none: Vec<Binary32> = Vec::new();
                        assert(none@ =~= Seq::empty());
                        (converter, none)
                    },
                }
            },
            None => (converter, chunk),
        };
        self.playback.push(resampled.as_slice());
        converter
    }

    /// Fills interleaved frames: the next mono samples on every channel.
    /// Samples beyond the last whole frame are left alone.
    pub fn fill(&mut self, channels: usize, data: &mut Vec<Binary32>) -> (r: PlaybackStatus)
        requires
            channels > 0,
            old(self).playback.renderable((old(data)@.len() / channels as nat) as nat),
        ensures
            final(self).resampler == old(self).resampler,
            final(data)@.len() == old(data)@.len(),
            ({
                let n = (old(data)@.len() / channels as nat) as nat;
                let b = old(self).playback;
                &&& r == b.status(n)
                &&& b.moves_on(n, final(self).playback)
                &&& final(self).underruns == (if r == PlaybackStatus::Underrun {
                    counted(old(self).underruns, 1)
                } else {
                    old(self).underruns
                })
                &&& final(data)@ == audio::spread(
                    if n == 0 {
                        Seq::empty()
                    } else {
                        b.output(n)
                    },
                    channels as nat,
                    old(data)@,
                )
            }),
    {
        let frames: usize = data.len() / channels;
        let ghost b = self.playback;
        let mut mono: Vec<Binary32> = audio::silent(frames);
        let status: PlaybackStatus = self.playback.render(&mut mono);
        match status {
            PlaybackStatus::Underrun => {
                self.underruns = count(self.underruns, 1);
            },
            _ => {},
        }
        proof {
            vstd::arithmetic::div_mod::lemma_fundamental_div_mod(
                data@.len() as int,
                channels as int,
            );
            assert(frames * channels <= data@.len()) by (nonlinear_arith)
                requires
                    data@.len() == channels * frames + data@.len() as int % channels as int,
                    data@.len() as int % channels as int >= 0,
            ;
            if frames == 0 {
                assert(mono@ =~= Seq::empty());
            }
        }
        audio::broadcast_mono(mono.as_slice(), channels, data);
        status
    }
}

/// What is counted adds up, and is the exact sum as long as it fits.
pub proof fn law_counting_adds_up(before: u64, n: nat, k: nat)
    ensures
        counted(counted(before, n), k) == counted(before, n + k),
        before + n <= u64::MAX ==> counted(before, n) == before + n,
{
    let size = 0x1_0000_0000_0000_0000int;
    vstd::arithmetic::div_mod::lemma_add_mod_noop(before + n, k as int, size);
    vstd::arithmetic::div_mod::lemma_mod_twice(before + n, size);
    if before + n <= u64::MAX {
        vstd::arithmetic::div_mod::lemma_small_mod((before + n) as nat, size as nat);
    }
    if k < size {
        vstd::arithmetic::div_mod::lemma_small_mod(k, size as nat);
    }
    assert((counted(before, n) + k) % size == (before + n + k) % size) by {
        vstd::arithmetic::div_mod::lemma_add_mod_noop(
            counted(before, n) as int,
            k as int,
            size,
        );
    }
}

/// Of what the pipeline makes, every sample that the queue took is counted as
/// processed, and every chunk that it had no room for as one drop. What it made
/// nothing of, or what failed, counts for neither.
pub proof fn law_forwarded_audio_is_counted<C, Q>(m: WorkerModel, t: ForwardReplies<C, Q>)
    ensures
        ({
            let after = forward_done(m, t);
            let made = match t.output {
                Ok(o) => o.audio@.len(),
                Err(_) => 0,
            };
            &&& made > 0 && t.sent is Sent ==> after.producer_drops == m.producer_drops && (
            m.samples_processed + made <= u64::MAX ==> after.samples_processed
                == m.samples_processed + made)
            &&& made > 0 && t.sent is Full ==> after.samples_processed == m.samples_processed && (
            m.producer_drops < u64::MAX ==> after.producer_drops == m.producer_drops + 1)
            &&& made == 0 || t.sent is Disconnected ==> after.samples_processed
                == m.samples_processed && after.producer_drops == m.producer_drops
            &&& after.input_rms == m.input_rms && after.separator == m.separator && after.ended
                == m.ended
        }),
{
    if let Ok(o) = t.output {
        law_counting_adds_up(m.samples_processed, o.audio@.len(), 0);
        law_counting_adds_up(m.producer_drops, 1, 0);
    }
}

/// The worker goes on unless the queue is gone or the pipeline fails, and a
/// failure is handed on in its own words.
pub proof fn law_full_queues_stop_nobody<C, Q>(t: ForwardReplies<C, Q>)
    ensures
        t.output matches Err(e) ==> forward_result(t) == Err::<bool, String>(e),
        t.output is Ok && !(t.sent is Disconnected) ==> forward_result(t) == Ok::<bool, String>(
            true,
        ),
        t.output matches Ok(o) ==> (t.sent is Disconnected && o.audio@.len() > 0
            ==> forward_result(t) == Ok::<bool, String>(false)),
{
}

/// The live controls are what every chunk is judged by, and forwarding never
/// moves them: it takes over what was measured, and whether the speaker gate is
/// open where the pipeline says so.
pub proof fn law_live_controls_rule<C, Q>(m: WorkerModel, own: GateConfig, t: ForwardReplies<C, Q>)
    ensures
        m.tuning matches Some(x) ==> {
            &&& gate_to_use(m, own) matches Some(g)
            &&& g.theta_pass == x.threshold && g.hangover_ms == x.hangover_ms && g.release_ms
                == x.release_ms && !g.adaptive_theta
            &&& forward_done(m, t).tuning matches Some(y)
            &&& y.threshold == x.threshold && y.hangover_ms == x.hangover_ms && y.release_ms
                == x.release_ms
            &&& t.output matches Ok(o) ==> y.last_score == o.score && y.effective_threshold
                == o.effective_threshold
        },
        m.tuning is None ==> gate_to_use(m, own) is None && forward_done(m, t).tuning is None,
        t.output matches Ok(o) ==> {
            &&& o.gate matches Some(on) ==> forward_done(m, t).gate_on == on
            &&& o.gate is None ==> forward_done(m, t).gate_on == m.gate_on
            &&& o.audio@.len() > 0 ==> forward_done(m, t).output_rms == audio::level(o.audio@)
            &&& o.audio@.len() == 0 ==> forward_done(m, t).output_rms == m.output_rms
        },
        t.output is Err ==> forward_done(m, t) == m,
{
}

/// Without a separator every chunk goes on as it came, and its level is shown.
pub proof fn law_chunks_pass_without_a_separator<
    R: Fn(&[Binary32], u32, u32) -> Result<Vec<Binary32>, String>,
    D: Fn(&[Binary32]) -> Result<(Vec<Binary32>, Vec<Binary32>), String>,
    E: Fn(&[Binary32]) -> Result<Vec<Binary32>, String>,
>(
    resample: R,
    separate: D,
    embed: E,
    m: WorkerModel,
    chunk: Seq<Binary32>,
    r: Result<Vec<Vec<Binary32>>, SessionEvent>,
    after: WorkerModel,
)
    requires
        received(resample, separate, embed, m, chunk, r, after),
        m.separator is None,
    ensures
        r matches Ok(v) && v@.len() == 1 && v@[0]@ == chunk,
        after.input_rms == (if chunk.len() > 0 {
            audio::level(chunk)
        } else {
            m.input_rms
        }),
        after == (WorkerModel { input_rms: after.input_rms, ..m }),
{
    reveal(received);
    let v = r->Ok_0@;
    assert(vectors::rows(v).len() == v.len());
    assert(vectors::rows(v)[0] == v[0]@);
}

/// Nothing that was held back is lost when a session ends: where the separator
/// still holds audio, a block is made of it and goes on, else nothing is added.
/// It holds nothing afterwards.
pub proof fn law_closing_empties_the_separator<
    R: Fn(&[Binary32], u32, u32) -> Result<Vec<Binary32>, String>,
    D: Fn(&[Binary32]) -> Result<(Vec<Binary32>, Vec<Binary32>), String>,
    E: Fn(&[Binary32]) -> Result<Vec<Binary32>, String>,
>(
    resample: R,
    separate: D,
    embed: E,
    m: WorkerModel,
    r: Result<Option<Vec<Binary32>>, SessionEvent>,
    after: WorkerModel,
)
    requires
        drained(resample, separate, embed, m, r, after),
    ensures
        m.separator is None ==> r is Ok && r->Ok_0 is None && after == m,
        m.separator matches Some(s) ==> {
            &&& s.pending.len() == 0 ==> r is Ok && r->Ok_0 is None && after == m
            &&& s.pending.len() > 0 ==> (r is Ok ==> r->Ok_0 is Some)
            &&& after.separator matches Some(x) && x.pending.len() == 0
            &&& after.samples_processed == m.samples_processed
        },
{
}

/// A session that is closed has ended. The pipeline's own rest counts as
/// processed, and a block that could not be made is what is reported.
pub proof fn law_closing_ends_the_session<C, Q>(t: CloseReplies<C, Q>)
    ensures
        close_done(t).ended,
        t.rest is Err <==> close_event(t) is Some,
        t.rest matches Err(e) ==> close_event(t) == Some(e),
        ({
            let before = before_tail(t);
            let added = match t.tail {
                Ok(v) => v@.len(),
                Err(_) => 0,
            };
            &&& before.samples_processed + added <= u64::MAX ==> close_done(t).samples_processed
                == before.samples_processed + added
            &&& close_done(t).producer_drops == before.producer_drops
            &&& close_done(t).separator == before.separator
            &&& !(t.rest matches Ok(Some(_))) ==> before == t.drained
        }),
{
    if let Ok(v) = t.tail {
        law_counting_adds_up(before_tail(t).samples_processed, v@.len(), 0);
    }
}

/// A step says how forwarding ended: the worker goes on only where every chunk
/// was forwarded, stops only where the queue was gone, and fails only with the
/// pipeline's own words.
pub proof fn law_steps_say_how_forwarding_ended<C, Q>(
    replies: Seq<ForwardReplies<C, Q>>,
    chunks: Seq<Seq<Binary32>>,
    step: WorkerStep,
)
    requires
        step_after(replies, chunks, step),
    ensures
        step is Continue ==> replies.len() == chunks.len() && (replies.len() > 0
            ==> replies.last().output is Ok),
        step is Stop ==> replies.len() > 0 && replies.last().output is Ok
            && replies.last().sent is Disconnected,
        step matches WorkerStep::Fail(SessionEvent::Error(e)) ==> replies.len() > 0
            && replies.last().output == Err::<PipelineOutput, String>(e),
{
}

/// The pipeline and the queue are left as the last forwarded chunk left them,
/// and untouched where none was forwarded.
pub proof fn law_lines_are_left_by_the_last_chunk<
    C,
    Q,
    G: Fn(&C) -> GateConfig,
    P: Fn(C, Option<GateConfig>, &[Binary32]) -> (C, Result<PipelineOutput, String>),
    S: Fn(Q, Vec<Binary32>) -> (Q, SendOutcome),
    R: Fn(&[Binary32], u32, u32) -> Result<Vec<Binary32>, String>,
    D: Fn(&[Binary32]) -> Result<(Vec<Binary32>, Vec<Binary32>), String>,
    E: Fn(&[Binary32]) -> Result<Vec<Binary32>, String>,
>(
    resample: R,
    separate: D,
    embed: E,
    own_gate: G,
    push: P,
    send: S,
    m: WorkerModel,
    line: Line<C, Q>,
    chunk: Seq<Binary32>,
    t: TakeReplies<C, Q>,
    step: WorkerStep,
    end: Line<C, Q>,
    after: WorkerModel,
)
    requires
        taken(
            resample,
            separate,
            embed,
            own_gate,
            push,
            send,
            m,
            line,
            chunk,
            t,
            step,
            end,
            after,
        ),
    ensures
        m.ended || t.selected is Err || t.forward.len() == 0 ==> end == line,
        !m.ended && t.selected is Ok && t.forward.len() > 0 ==> end == t.forward.last().after,
        !m.ended && t.selected is Err ==> after.ended && after.samples_processed
            == t.heard.samples_processed,
        !m.ended && t.selected is Ok ==> (after.ended <==> !(step is Continue)),
{
    reveal(taken);
}

/// The block that is made of what was held back is as long as that was.
pub proof fn law_closing_keeps_the_length<
    R: Fn(&[Binary32], u32, u32) -> Result<Vec<Binary32>, String>,
    D: Fn(&[Binary32]) -> Result<(Vec<Binary32>, Vec<Binary32>), String>,
    E: Fn(&[Binary32]) -> Result<Vec<Binary32>, String>,
>(
    resample: R,
    separate: D,
    embed: E,
    m: WorkerModel,
    r: Result<Option<Vec<Binary32>>, SessionEvent>,
    after: WorkerModel,
)
    requires
        drained(resample, separate, embed, m, r, after),
        m.separator matches Some(s) && s.pending.len() <= separation::LIVE_BLOCK_SAMPLES,
        r is Ok && r->Ok_0 is Some,
    ensures
        r->Ok_0->0@.len() == m.separator->0.pending.len(),
{
    let before = m.separator->0;
    let block = audio::fitted(before.pending, separation::LIVE_BLOCK_SAMPLES as nat);
    let valid = before.pending.len();
    let t = choose|t: BlockReplies| #[trigger]
        separation::block_asked(resample, separate, embed, before, block, valid, t) && (match r {
            Ok(o) => o matches Some(v) && separation::block_outcome(before, block, valid, t)
                == Ok::<Seq<Binary32>, String>(v@),
            Err(SessionEvent::Error(e)) => separation::block_outcome(
                before,
                block,
                valid,
                t,
            ) matches Err(x) && e@ == "target speaker separation flush: "@ + x@,
        });
    assert(separation::block_outcome(before, block, valid, t) == Ok::<Seq<Binary32>, String>(
        r->Ok_0->0@,
    ));
}

} // verus!
