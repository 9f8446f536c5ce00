use mellonella::binary32::Binary32;
use mellonella::enrollment::EmbeddingPool;
use mellonella::enrollment::EmbeddingPoolConfig;
use mellonella::gating::GateConfig;
use mellonella::playback::PlaybackStatus;
use mellonella::separation::SeparatorTuning;
use mellonella::separation::TargetSpeakerSeparator;
use mellonella::session::GateTuning;
use mellonella::worker::InputStage;
use mellonella::worker::Line;
use mellonella::worker::LiveSessionStats;
use mellonella::worker::OutputStage;
use mellonella::worker::PipelineOutput;
use mellonella::worker::SendOutcome;
use mellonella::worker::SessionEvent;
use mellonella::worker::Worker;
use mellonella::worker::WorkerStep;

fn b(x: f32) -> Binary32 {
    Binary32 { bits: x.to_bits() }
}

fn f(x: Binary32) -> f32 {
    f32::from_bits(x.bits)
}

fn back(xs: &[Binary32]) -> Vec<f32> {
    xs.iter().map(|&x| f(x)).collect()
}

fn gate() -> GateConfig {
    GateConfig {
        theta_pass: b(0.45),
        adaptive_theta: true,
        use_as_norm: false,
        hangover_ms: b(500.0),
        hangover_floor_frac: b(0.5),
        release_ms: b(120.0),
        attack_ms: b(10.0),
        theta_f0: b(0.5),
        other_speaker_margin: b(0.08),
    }
}

fn same(audio: &[Binary32], _: u32, _: u32) -> Result<Vec<Binary32>, String> {
    Ok(audio.to_vec())
}

fn nothing(_: &[Binary32]) -> Result<(Vec<Binary32>, Vec<Binary32>), String> {
    Err("no separator".to_string())
}

fn embed(_: &[Binary32]) -> Result<Vec<Binary32>, String> {
    Ok(vec![b(1.0)])
}

/// A pipeline that keeps what it was given and halves it.
#[derive(Debug, Default, PartialEq)]
struct Halver {
    heard: Vec<Vec<f32>>,
    gates: Vec<Option<Controls>>,
    flushed: usize,
}

/// The controls that a push came with.
#[derive(Debug, PartialEq)]
struct Controls {
    theta_pass: f32,
    adaptive_theta: bool,
}

type Sent = Vec<Vec<f32>>;

fn line() -> Line<Halver, Sent> {
    Line {
        pipeline: Halver::default(),
        queue: Vec::new(),
    }
}

fn own_gate(_: &Halver) -> GateConfig {
    gate()
}

fn halve(
    mut p: Halver,
    g: Option<GateConfig>,
    a: &[Binary32],
) -> (Halver, Result<PipelineOutput, String>) {
    assert_eq!(p.flushed, 0);
    p.heard.push(back(a));
    p.gates.push(g.map(|g| Controls {
        theta_pass: f(g.theta_pass),
        adaptive_theta: g.adaptive_theta,
    }));
    let out = PipelineOutput {
        audio: a.iter().map(|&x| b(f(x) * 0.5)).collect(),
        gate: Some(true),
        score: b(0.7),
        effective_threshold: b(0.6),
    };
    (p, Ok(out))
}

fn broken(
    mut p: Halver,
    _: Option<GateConfig>,
    a: &[Binary32],
) -> (Halver, Result<PipelineOutput, String>) {
    p.heard.push(back(a));
    (p, Err("broken".to_string()))
}

fn keep(mut q: Sent, a: Vec<Binary32>) -> (Sent, SendOutcome) {
    q.push(back(&a));
    (q, SendOutcome::Sent)
}

fn full(q: Sent, _: Vec<Binary32>) -> (Sent, SendOutcome) {
    (q, SendOutcome::Full)
}

fn closed(q: Sent, _: Vec<Binary32>) -> (Sent, SendOutcome) {
    (q, SendOutcome::Disconnected)
}

fn flush(mut p: Halver) -> (Halver, Result<Vec<Binary32>, String>) {
    p.flushed += 1;
    (p, Ok(vec![b(0.25); 9]))
}

fn separator() -> TargetSpeakerSeparator {
    let mut pool = EmbeddingPool::new(EmbeddingPoolConfig::default());
    pool.add_anchors(vec![vec![b(1.0)]]);
    TargetSpeakerSeparator::new(pool, SeparatorTuning::default()).unwrap()
}

fn take(
    worker: &mut Worker,
    chunk: Vec<Binary32>,
    line: Line<Halver, Sent>,
) -> (Line<Halver, Sent>, WorkerStep) {
    worker.take(chunk, line, &same, &nothing, &embed, &own_gate, &halve, &keep)
}

#[test]
fn chunks_go_straight_on_without_a_separator() {
    let mut worker = Worker::new(None, None);
    let chunk = vec![b(3.0), b(-4.0), b(0.0), b(0.0)];
    let (l, step) = take(&mut worker, chunk, line());
    assert!(matches!(step, WorkerStep::Continue));
    assert_eq!(l.pipeline.heard, vec![vec![3.0, -4.0, 0.0, 0.0]]);
    assert_eq!(l.queue, vec![vec![1.5, -2.0, 0.0, 0.0]]);
    assert_eq!(f(worker.input_rms()), 2.5);
    // An empty chunk leaves the meter alone.
    let (l, _) = take(&mut worker, Vec::new(), l);
    assert_eq!(f(worker.input_rms()), 2.5);
    assert_eq!(l.queue.len(), 1);
}

#[test]
fn forwarded_audio_is_counted_shown_and_queued() {
    let mut tuning = GateTuning::new(gate());
    tuning.set_threshold(b(0.6));
    let mut worker = Worker::new(None, Some(tuning));
    let (l, _) = take(&mut worker, vec![b(0.5), b(0.5)], line());
    let (l, step) = take(&mut worker, vec![b(1.0)], l);
    assert!(matches!(step, WorkerStep::Continue));
    assert_eq!(worker.samples_processed(), 3);
    assert_eq!(f(worker.output_rms()), 0.5);
    assert!(worker.gate_on());
    // Once and in order, under the live controls.
    assert_eq!(l.pipeline.heard, vec![vec![0.5, 0.5], vec![1.0]]);
    assert_eq!(l.queue, vec![vec![0.25, 0.25], vec![0.5]]);
    let used = Some(Controls {
        theta_pass: 0.6,
        adaptive_theta: false,
    });
    assert_eq!(l.pipeline.gates[0], used);
    assert_eq!(f(worker.gate_tuning().unwrap().last_score()), 0.7);
}

#[test]
fn a_failing_pipeline_ends_the_session() {
    let mut worker = Worker::new(None, None);
    let (l, _) = take(&mut worker, vec![b(0.5)], line());
    let (l, step) = worker.take(
        vec![b(1.0)], l, &same, &nothing, &embed, &own_gate, &broken, &keep,
    );
    assert!(matches!(
        step,
        WorkerStep::Fail(SessionEvent::Error(m)) if m == "broken"
    ));
    assert_eq!(worker.samples_processed(), 1);

    // No later chunk is processed, and nothing is flushed.
    let (l, step) = take(&mut worker, vec![b(2.0)], l);
    assert!(matches!(step, WorkerStep::Stop));
    let (l, event) = worker.close(
        l, &same, &nothing, &embed, &own_gate, &halve, &keep, flush,
    );
    assert!(event.is_none());
    assert_eq!(l.pipeline.heard, vec![vec![0.5], vec![1.0]]);
    assert_eq!(l.pipeline.flushed, 0);
    assert_eq!(l.queue, vec![vec![0.25]]);
}

#[test]
fn a_failing_separator_ends_the_session() {
    let mut worker = Worker::new(Some(separator()), None);
    let (l, step) = take(&mut worker, vec![b(0.5); 48_000], line());
    match step {
        WorkerStep::Fail(SessionEvent::Error(m)) => {
            assert_eq!(m, "target speaker separation: no separator");
        }
        _ => panic!("expected a failure"),
    }
    let (l, step) = take(&mut worker, vec![b(0.0); 48_000], l);
    assert!(matches!(step, WorkerStep::Stop));
    assert_eq!(l.pipeline, Halver::default());
}

#[test]
fn a_closed_output_ends_the_session_quietly() {
    let mut worker = Worker::new(None, None);
    let (l, step) = worker.take(
        vec![b(0.5)], line(), &same, &nothing, &embed, &own_gate, &halve, &closed,
    );
    assert!(matches!(step, WorkerStep::Stop));
    let (l, step) = take(&mut worker, vec![b(0.5)], l);
    assert!(matches!(step, WorkerStep::Stop));
    assert_eq!(l.pipeline.heard.len(), 1);

    let mut other = Worker::new(None, None);
    let (_, on) = other.forward_pipeline_audio(&[b(0.5)], line(), &own_gate, &halve, &closed);
    assert_eq!(on, Ok(false));
    let (_, on) = other.forward_pipeline_audio(&[b(0.5)], line(), &own_gate, &halve, &keep);
    assert_eq!(on, Ok(true));
}

#[test]
fn the_separator_collects_a_second_before_anything_goes_on() {
    let mut worker = Worker::new(Some(separator()), None);
    let (l, _) = take(&mut worker, vec![b(0.0); 100], line());
    assert!(l.pipeline.heard.is_empty());
    let (l, _) = take(&mut worker, vec![b(0.0); 48_000], l);
    assert_eq!(l.pipeline.heard.len(), 1);
    assert_eq!(l.pipeline.heard[0].len(), 48_000);

    // The rest goes through the pipeline before it is flushed.
    let (l, event) = worker.close(
        l, &same, &nothing, &embed, &own_gate, &halve, &keep, flush,
    );
    assert!(event.is_none());
    assert_eq!(l.pipeline.heard.len(), 2);
    assert_eq!(l.pipeline.heard[1].len(), 100);
    assert_eq!(l.pipeline.flushed, 1);
    assert_eq!(l.queue.iter().map(|c| c.len()).collect::<Vec<_>>(), vec![48_000, 100, 9]);
    assert_eq!(worker.samples_processed(), 48_109);
}

#[test]
fn what_the_pipeline_still_held_is_queued_last() {
    let mut worker = Worker::new(None, None);
    worker.set_gate_tuning(Some(GateTuning::new(gate())));
    assert!(worker.gate_tuning().is_some());
    let (l, _) = take(&mut worker, vec![b(0.5)], line());
    let (l, event) = worker.close(
        l, &same, &nothing, &embed, &own_gate, &halve, &keep, flush,
    );
    assert!(event.is_none());
    assert_eq!(l.queue.last().unwrap(), &vec![0.25; 9]);
    assert_eq!(worker.samples_processed(), 10);

    // A flush that failed, or that gave nothing, queues nothing.
    for tail in [Err("flush".to_string()), Ok(Vec::new())] {
        let mut other = Worker::new(None, None);
        let (l, event) = other.close(
            line(), &same, &nothing, &embed, &own_gate, &halve, &keep,
            |p: Halver| (p, tail),
        );
        assert!(event.is_none() && l.queue.is_empty());
        assert_eq!(other.samples_processed(), 0);
    }
}

#[test]
fn a_failed_drain_still_flushes_the_pipeline() {
    let mut worker = Worker::new(Some(separator()), None);
    let (l, _) = take(&mut worker, vec![b(0.5); 100], line());
    let (l, event) = worker.close(
        l, &same, &nothing, &embed, &own_gate, &halve, &keep, flush,
    );
    assert!(matches!(
        event,
        Some(SessionEvent::Error(m)) if m == "target speaker separation flush: no separator"
    ));
    assert!(l.pipeline.heard.is_empty());
    assert_eq!(l.pipeline.flushed, 1);
    assert_eq!(l.queue, vec![vec![0.25; 9]]);
    assert_eq!(worker.samples_processed(), 9);

    // How forwarding the rest went does not matter.
    let mut other = Worker::new(Some(separator()), None);
    let (l, _) = take(&mut other, vec![b(0.0); 60], line());
    let (l, event) = other.close(
        l, &same, &nothing, &embed, &own_gate, &broken, &keep, flush,
    );
    assert!(event.is_none());
    assert_eq!(l.pipeline.heard.len(), 1);
    assert_eq!(l.pipeline.flushed, 1);
    assert_eq!(l.queue.len(), 1);
}

#[test]
fn the_input_counts_what_the_queue_has_no_room_for() {
    let mut input = InputStage::new(48_000);
    let pass = |n: u32, a: &[Binary32]| (n + 1, Ok(a.to_vec()));
    assert_eq!(input.process(vec![b(0.5)], 7, &pass), (7, Ok(Some(vec![b(0.5)]))));
    assert_eq!(input.process(Vec::new(), 7, &pass), (7, Ok(None)));
    input.note_sent(SendOutcome::Sent);
    input.note_sent(SendOutcome::Disconnected);
    assert_eq!(input.overruns, 0);
    input.note_sent(SendOutcome::Full);
    assert_eq!(input.overruns, 1);

    let mut other = InputStage::new(44_100);
    assert_eq!(other.process(vec![b(0.5); 1_000], 7, &pass), (7, Ok(None)));
    let (n, chunk) = other.process(vec![b(0.5); 100], 7, &pass);
    assert_eq!((n, chunk.unwrap().unwrap().len()), (8, 1_024));
    let refuse = |n: u32, _: &[Binary32]| (n + 1, Err("no".to_string()));
    assert_eq!(
        other.process(vec![b(0.5); 1_024], 8, &refuse),
        (9, Err("no".to_string()))
    );
}

#[test]
fn the_output_buffers_and_fills_every_channel() {
    let mut output = OutputStage::new(48_000);
    let pass = |n: u32, a: &[Binary32]| (n + 1, Ok(a.to_vec()));
    assert_eq!(output.accept(vec![b(0.5); 4_000], 7, &pass), 7);
    let mut data = vec![b(9.0); 21];
    assert!(output.playback.can_render(10));
    assert_eq!(output.fill(2, &mut data), PlaybackStatus::Rendered);
    assert_eq!(data[0], data[1]);
    assert_eq!(f(data[20]), 9.0);
    assert_eq!(output.underruns, 0);

    let mut other = OutputStage::new(44_100);
    assert_eq!(other.accept(vec![b(0.5); 2_048], 7, &pass), 9);
    assert_eq!(other.playback.buffered_samples(), 2_048);
    let refuse = |n: u32, _: &[Binary32]| (n + 1, Err("no".to_string()));
    assert_eq!(other.accept(vec![b(0.5); 1_024], 9, &refuse), 10);
    assert_eq!(other.playback.buffered_samples(), 2_048);
}

#[test]
fn a_dry_output_counts_as_an_underrun() {
    let mut output = OutputStage::new(1_000);
    output.playback.push(&vec![b(0.5); 64]);
    let mut data = vec![b(0.0); 32];
    assert!(output.playback.can_render(32));
    assert_eq!(output.fill(1, &mut data), PlaybackStatus::Rendered);
    let mut data = vec![b(0.0); 40];
    assert_eq!(output.fill(1, &mut data), PlaybackStatus::Underrun);
    assert_eq!(output.underruns, 1);
    // Waiting for the prebuffer is no underrun.
    let mut data = vec![b(0.0); 40];
    assert_eq!(output.fill(1, &mut data), PlaybackStatus::Prebuffering);
    assert_eq!(output.underruns, 1);
}

#[test]
fn counters_begin_at_zero() {
    let stats = LiveSessionStats::default();
    assert_eq!(stats.samples_processed, 0);
    assert_eq!(stats.input_overruns, 0);
    assert_eq!(stats.output_underruns, 0);
}

#[test]
fn the_separator_threshold_can_be_moved_while_it_runs() {
    let mut plain = Worker::new(None, None);
    plain.set_separator_threshold(b(0.7));
    assert!(plain.separator_tuning().is_none());

    let mut pool = EmbeddingPool::new(EmbeddingPoolConfig::default());
    pool.add_anchors(vec![vec![b(1.0)]]);
    let stage = TargetSpeakerSeparator::new(pool, SeparatorTuning::default()).unwrap();
    let mut worker = Worker::new(Some(stage), None);
    worker.set_separator_threshold(b(0.7));
    assert_eq!(f(worker.separator_tuning().unwrap().threshold()), 0.7);
}

#[test]
fn chunks_that_find_the_output_full_are_counted() {
    let mut worker = Worker::new(None, None);
    let mut l = line();
    for audio in [vec![b(0.5)], vec![b(0.5)], vec![b(0.5)], Vec::new()] {
        let (next, on) = worker.forward_pipeline_audio(&audio, l, &own_gate, &halve, &full);
        assert_eq!(on, Ok(true));
        l = next;
    }
    let (l, on) = worker.forward_pipeline_audio(&[b(0.5)], l, &own_gate, &halve, &keep);
    assert_eq!(on, Ok(true));
    assert_eq!(worker.producer_drops(), 3);
    assert_eq!(worker.samples_processed(), 1);
    assert_eq!((l.pipeline.heard.len(), l.queue.len()), (5, 1));
}

#[test]
fn a_fresh_output_prebuffers_from_its_start() {
    let output = OutputStage::new(44_100);
    assert_eq!(output.playback.read_position.bits, 0);
    assert_eq!(output.playback.fade_total, 220);
    assert_eq!(output.playback.fade_remaining, 0);
    assert_eq!(output.playback.last_output.bits, 0);
    assert!(!output.playback.started && output.playback.samples.is_empty());
}
