//! Live session: microphone, streaming pipeline, speaker.
//!
//! The devices, threads and queues belong to the application. What a session
//! is built with, what its worker does with each chunk, and what its two
//! audio callbacks do stands here.

use crate::audio;
use crate::binary32::Binary32;
use crate::enrollment::EmbeddingPool;
use crate::gating::GateConfig;
use crate::paths;
use crate::pipeline::StreamingConfig;
use crate::separation::SeparatorTuning;
use crate::text;
use std::path::PathBuf;
use vstd::prelude::*;
use vstd::string::StringExecFns;

verus! {

/// Input chunks that may wait for the worker. Capture continues while a
/// one-second block is inferred.
pub const INPUT_RING_CHUNKS: usize = 64;

/// Output chunks that may wait for the output callback.
pub const OUTPUT_RING_CHUNKS: usize = 64;

/// Bits of `0.05`, `0.95`, `2000.0` and `1000.0`.
pub const LEAST_THRESHOLD: u32 = 0x3d4c_cccd;

pub const GREATEST_THRESHOLD: u32 = 0x3f73_3333;

pub const GREATEST_HANGOVER_MS: u32 = 0x44fa_0000;

pub const GREATEST_RELEASE_MS: u32 = 0x447a_0000;

/// Gate controls and diagnostics that can change while a session runs.
#[derive(Debug, Clone, Copy, PartialEq, Eq, Structural)]
pub struct GateTuning {
    threshold: Binary32,
    hangover_ms: Binary32,
    release_ms: Binary32,
    last_score: Binary32,
    effective_threshold: Binary32,
}

/// What a [`GateTuning`] holds.
pub struct TuningModel {
    pub threshold: Binary32,
    pub hangover_ms: Binary32,
    pub release_ms: Binary32,
    pub last_score: Binary32,
    pub effective_threshold: Binary32,
}

/// A control after somebody tried to set it to `value`: held within its
/// bounds, and left as it was by what is not finite.
pub open spec fn adjusted(current: Binary32, value: Binary32, low: u32, high: u32) -> Binary32 {
    if value.finite() {
        value.clamped(Binary32 { bits: low }, Binary32 { bits: high })
    } else {
        current
    }
}

/// The speaker gate with its exposed controls replaced. A manual threshold stays exact
/// and predictable, so the adaptive one is switched off.
pub open spec fn tuned(t: TuningModel, config: GateConfig) -> GateConfig {
    GateConfig {
        theta_pass: t.threshold,
        hangover_ms: t.hangover_ms,
        release_ms: t.release_ms,
        adaptive_theta: false,
        ..config
    }
}

impl View for GateTuning {
    type V = TuningModel;

    closed spec fn view(&self) -> TuningModel {
        TuningModel {
            threshold: self.threshold,
            hangover_ms: self.hangover_ms,
            release_ms: self.release_ms,
            last_score: self.last_score,
            effective_threshold: self.effective_threshold,
        }
    }
}

impl GateTuning {
    pub fn new(config: GateConfig) -> (r: Self)
        ensures
            r@ == (TuningModel {
                threshold: config.theta_pass,
                hangover_ms: config.hangover_ms,
                release_ms: config.release_ms,
                last_score: Binary32 { bits: 0 },
                effective_threshold: config.theta_pass,
            }),
    {
        GateTuning {
            threshold: config.theta_pass,
            hangover_ms: config.hangover_ms,
            release_ms: config.release_ms,
            last_score: Binary32 { bits: 0 },
            effective_threshold: config.theta_pass,
        }
    }

    pub fn threshold(&self) -> (r: Binary32)
        ensures
            r == self@.threshold,
    {
        self.threshold
    }

    pub fn set_threshold(&mut self, value: Binary32)
        ensures
            final(self)@ == (TuningModel {
                threshold: adjusted(
                    old(self)@.threshold,
                    value,
                    LEAST_THRESHOLD,
                    GREATEST_THRESHOLD,
                ),
                ..old(self)@
            }),
    {
        if value.is_finite() {
            self.threshold = value.clamp(
                Binary32 { bits: LEAST_THRESHOLD },
                Binary32 { bits: GREATEST_THRESHOLD },
            );
        }
    }

    pub fn hangover_ms(&self) -> (r: Binary32)
        ensures
            r == self@.hangover_ms,
    {
        self.hangover_ms
    }

    pub fn set_hangover_ms(&mut self, value: Binary32)
        ensures
            final(self)@ == (TuningModel {
                hangover_ms: adjusted(old(self)@.hangover_ms, value, 0, GREATEST_HANGOVER_MS),
                ..old(self)@
            }),
    {
        if value.is_finite() {
            self.hangover_ms = value.clamp(
                Binary32 { bits: 0 },
                Binary32 { bits: GREATEST_HANGOVER_MS },
            );
        }
    }

    pub fn release_ms(&self) -> (r: Binary32)
        ensures
            r == self@.release_ms,
    {
        self.release_ms
    }

    pub fn set_release_ms(&mut self, value: Binary32)
        ensures
            final(self)@ == (TuningModel {
                release_ms: adjusted(old(self)@.release_ms, value, 0, GREATEST_RELEASE_MS),
                ..old(self)@
            }),
    {
        if value.is_finite() {
            self.release_ms = value.clamp(
                Binary32 { bits: 0 },
                Binary32 { bits: GREATEST_RELEASE_MS },
            );
        }
    }

    pub fn last_score(&self) -> (r: Binary32)
        ensures
            r == self@.last_score,
    {
        self.last_score
    }

    pub fn effective_threshold(&self) -> (r: Binary32)
        ensures
            r == self@.effective_threshold,
    {
        self.effective_threshold
    }

    /// The speaker gate with its exposed controls replaced.
    pub fn apply_to(&self, config: GateConfig) -> (r: GateConfig)
        ensures
            r == tuned(self@, config),
    {
        GateConfig {
            theta_pass: self.threshold,
            hangover_ms: self.hangover_ms,
            release_ms: self.release_ms,
            adaptive_theta: false,
            ..config
        }
    }

    /// Takes over what the pipeline last measured.
    pub fn update_diagnostics(&mut self, score: Binary32, effective_threshold: Binary32)
        ensures
            final(self)@ == (TuningModel {
                last_score: score,
                effective_threshold,
                ..old(self)@
            }),
    {
        self.last_score = score;
        self.effective_threshold = effective_threshold;
    }
}

/// Whatever a control is set to, it ends up within its bounds, if it was there
/// before.
pub proof fn law_controls_stay_within_bounds(
    current: Binary32,
    value: Binary32,
    low: u32,
    high: u32,
)
    requires
        (Binary32 { bits: low }).le(Binary32 { bits: high }),
        (Binary32 { bits: low }).le(current),
        current.le(Binary32 { bits: high }),
    ensures
        (Binary32 { bits: low }).le(adjusted(current, value, low, high)),
        adjusted(current, value, low, high).le(Binary32 { bits: high }),
{
    let a = Binary32 { bits: low };
    let b = Binary32 { bits: high };
    assert(!a.nan() && !b.nan()) by {
        reveal(Binary32::le);
    }
    if value.finite() {
        crate::binary32::lemma_total(value, a, b);
        crate::binary32::lemma_total(b, value, b);
        crate::binary32::lemma_total(a, b, b);
        crate::binary32::lemma_total(b, b, b);
    }
}

/// Tuning changes the three exposed controls and the adaptive switch, and
/// nothing else of a gate.
pub proof fn law_tuning_touches_only_exposed_fields(t: TuningModel, config: GateConfig)
    ensures
        tuned(t, config).attack_ms == config.attack_ms,
        tuned(t, config).theta_f0 == config.theta_f0,
        tuned(t, config).use_as_norm == config.use_as_norm,
        tuned(t, config).other_speaker_margin == config.other_speaker_margin,
        tuned(t, config).hangover_floor_frac == config.hangover_floor_frac,
        !tuned(t, config).adaptive_theta,
{
}

/// Whether a device captures or plays.
#[derive(Debug, Clone, Copy, PartialEq, Eq, Structural)]
pub enum DeviceKind {
    Input,
    Output,
}

/// Failures of the audio side.
#[derive(Debug)]
pub enum AudioIoError {
    DeviceQuery(String),
    DeviceNotFound { kind: DeviceKind, name: String },
    NoDefaultDevice(DeviceKind),
    UnsupportedSampleFormat { format: String },
    Stream(String),
    Resample(String),
    Pipeline(String),
    WorkerDied(String),
}

/// How the channels of an input device are folded down to mono.
#[derive(Debug, Clone, Copy, PartialEq, Eq, Structural)]
pub enum ChannelStrategy {
    /// The mean of all channels.
    Average,
    /// One channel, where the others are room microphones or references.
    Channel(usize),
}

impl Default for ChannelStrategy {
    fn default() -> (r: Self)
        ensures
            r == ChannelStrategy::Average,
    {
        ChannelStrategy::Average
    }
}

/// Which device to open.
#[derive(Debug, Clone, Copy, PartialEq, Eq, Structural)]
pub enum DeviceChoice {
    /// The listed device with that index.
    Listed(usize),
    HostDefault,
}

/// A listed device has the name.
pub open spec fn is_named(listed: Option<String>, name: Seq<char>) -> bool {
    listed matches Some(n) && n@ == name
}

/// The device that a session opens: the first listed one with the wanted name,
/// or the host default where none is wanted. A listed device may have no name.
pub fn pick_device(
    listed: &Vec<Option<String>>,
    kind: DeviceKind,
    name: Option<&str>,
    has_default: bool,
) -> (r: Result<DeviceChoice, AudioIoError>)
    ensures
        name is None ==> r == (if has_default {
            Ok::<DeviceChoice, AudioIoError>(DeviceChoice::HostDefault)
        } else {
            Err(AudioIoError::NoDefaultDevice(kind))
        }),
        name matches Some(n) ==> match r {
            Ok(choice) => choice matches DeviceChoice::Listed(i) && i < listed@.len() && is_named(
                listed@[i as int],
                n@,
            ) && forall|k: int| 0 <= k < i ==> !is_named(#[trigger] listed@[k], n@),
            Err(e) => (forall|k: int|
                0 <= k < listed@.len() ==> !is_named(#[trigger] listed@[k], n@)) && (e matches
                AudioIoError::DeviceNotFound { kind: k, name: m } && k == kind && m@ == n@),
        },
{
    match name {
        Some(wanted) => {
            let owned: String = String::from_str(wanted);
            let mut i: usize = 0;
            while i < listed.len()
                invariant
                    i <= listed@.len(),
                    owned@ == wanted@,
                    name == Some(wanted),
                    forall|k: int| 0 <= k < i ==> !is_named(#[trigger] listed@[k], wanted@),
                decreases listed@.len() - i,
            {
                let found: bool = match &listed[i] {
                    Some(n) => *n == owned,
                    None => false,
                };
                if found {
                    return Ok(DeviceChoice::Listed(i));
                }
                assert(!is_named(listed@[i as int], wanted@));
                i = i + 1;
            }
            Err(AudioIoError::DeviceNotFound { kind, name: owned })
        },
        None => {
            if has_default {
                Ok(DeviceChoice::HostDefault)
            } else {
                Err(AudioIoError::NoDefaultDevice(kind))
            }
        },
    }
}

/// The sample format that a device offers.
#[derive(Debug)]
pub enum SampleKind {
    F32,
    /// Another one, under its name.
    Other(String),
}

/// Both devices have to offer single-precision samples; the input is looked at
/// first.
pub fn check_formats(input: &SampleKind, output: &SampleKind) -> (r: Result<(), AudioIoError>)
    ensures
        r is Ok <==> *input is F32 && *output is F32,
        *input matches SampleKind::Other(name) ==> (r matches Err(
            AudioIoError::UnsupportedSampleFormat { format },
        ) && format@ == "input "@ + name@),
        *input is F32 ==> (*output matches SampleKind::Other(name) ==> (r matches Err(
            AudioIoError::UnsupportedSampleFormat { format },
        ) && format@ == "output "@ + name@)),
{
    match input {
        SampleKind::F32 => {},
        SampleKind::Other(name) => {
            return Err(
                AudioIoError::UnsupportedSampleFormat {
                    format: text::joined("input ", name.as_str()),
                },
            );
        },
    }
    match output {
        SampleKind::F32 => Ok(()),
        SampleKind::Other(name) => Err(
            AudioIoError::UnsupportedSampleFormat { format: text::joined("output ", name.as_str()) },
        ),
    }
}

/// The live controls at the start of a session: nothing is scored yet, and the
/// threshold in effect is the one that is set.
pub open spec fn at_start(t: TuningModel) -> TuningModel {
    TuningModel { last_score: Binary32 { bits: 0 }, effective_threshold: t.threshold, ..t }
}

/// Why a session could not be opened.
#[derive(Debug, Clone)]
pub struct OpenFailure {
    pub message: String,
    /// Whether the live controls had been started over by then.
    pub controls_reset: bool,
}

/// What a session is opened with.
#[derive(Debug)]
pub struct SessionConfig {
    /// Input device name. `None` means the host default.
    pub input_device: Option<String>,
    /// Output device name. `None` means the host default.
    pub output_device: Option<String>,
    pub streaming: StreamingConfig,
    /// Noise-suppression model. `None` means no noise suppression.
    pub dfn3_onnx_path: Option<PathBuf>,
    /// Overlap detector, which routes the chain adaptively.
    pub overlap_onnx_path: Option<PathBuf>,
    /// Two-speaker separator. Configured together with the next one.
    pub sepformer_onnx_path: Option<PathBuf>,
    /// Embedding model that identifies the two separated streams.
    pub speaker_embedding_onnx_path: Option<PathBuf>,
    /// Companion enrollment with separator-domain anchors. Falls back to the
    /// ordinary pool.
    pub speaker_selection_pool: Option<EmbeddingPool>,
    /// Separator knobs. `None` means the defaults.
    pub separator_tuning: Option<SeparatorTuning>,
    /// Gate controls. `None` keeps those in `streaming` fixed.
    pub gate_tuning: Option<GateTuning>,
    pub input_channel: ChannelStrategy,
}

/// The separation stage of a session.
#[derive(Debug)]
pub struct SeparationPlan {
    pub sepformer: PathBuf,
    pub ecapa: PathBuf,
    pub tuning: SeparatorTuning,
    pub pool: EmbeddingPool,
}

/// What a session consists of.
#[derive(Debug)]
pub struct SessionPlan {
    pub streaming: StreamingConfig,
    pub separation: Option<SeparationPlan>,
    pub gate_tuning: Option<GateTuning>,
    pub dfn3_enabled: bool,
    /// Whether the chain is routed by the overlap detector.
    pub adaptive_enabled: bool,
}

/// The message about a separator without its embedding model, or the other
/// way round.
pub open spec fn pairing_message() -> Seq<char> {
    "SepFormer and speaker-embedding ONNX paths must be configured together"@
}

/// What a session consists of: the pipeline at the internal rate with the
/// session's models, and the separation stage where both of its models are
/// configured. One of them without the other is refused.
pub fn plan_session(pool: &EmbeddingPool, config: &SessionConfig) -> (r: Result<
    SessionPlan,
    AudioIoError,
>)
    requires
        pool.valid(),
        config.speaker_selection_pool matches Some(p) ==> p.valid(),
    ensures
        r is Ok <==> (config.sepformer_onnx_path is Some
            <==> config.speaker_embedding_onnx_path is Some),
        r matches Err(e) ==> (e matches AudioIoError::Pipeline(m) && m@ == pairing_message()),
        r matches Ok(plan) ==> {
            &&& plan.streaming == (StreamingConfig {
                audio_sample_rate: audio::INTERNAL_SAMPLE_RATE,
                dfn3_onnx_path: config.dfn3_onnx_path,
                overlap_onnx_path: config.overlap_onnx_path,
                ..config.streaming
            })
            &&& plan.dfn3_enabled == (config.dfn3_onnx_path is Some)
            &&& plan.adaptive_enabled == (config.overlap_onnx_path is Some
                && config.streaming.pipeline.tse is Some && config.dfn3_onnx_path is Some)
            &&& plan.separation is Some <==> config.sepformer_onnx_path is Some
            &&& plan.separation matches Some(s) ==> {
                &&& Some(s.sepformer) == config.sepformer_onnx_path
                &&& Some(s.ecapa) == config.speaker_embedding_onnx_path
                &&& s.pool.valid()
                &&& s.pool@ == (match config.speaker_selection_pool {
                    Some(p) => p@,
                    None => pool@,
                })
                &&& match config.separator_tuning {
                    Some(t) => s.tuning == t,
                    None => s.tuning.limit().bits == crate::separation::MIN_TARGET_SCORE
                        && s.tuning.last().bits == 0,
                }
            }
            &&& plan.gate_tuning is Some <==> config.gate_tuning is Some
            &&& plan.gate_tuning matches Some(t) ==> t@ == at_start(config.gate_tuning->0@)
        },
{
    let mut streaming: StreamingConfig = config.streaming.clone();
    streaming.audio_sample_rate = audio::INTERNAL_SAMPLE_RATE;
    streaming.dfn3_onnx_path = paths::copy_optional(&config.dfn3_onnx_path);
    streaming.overlap_onnx_path = paths::copy_optional(&config.overlap_onnx_path);
    let dfn3_enabled: bool = streaming.dfn3_onnx_path.is_some();
    let adaptive_enabled: bool = streaming.overlap_onnx_path.is_some()
        && streaming.pipeline.tse.is_some() && dfn3_enabled;
    let separation: Option<SeparationPlan> = match (
        &config.sepformer_onnx_path,
        &config.speaker_embedding_onnx_path,
    ) {
        (Some(sepformer), Some(ecapa)) => {
            let tuning: SeparatorTuning = match &config.separator_tuning {
                Some(t) => *t,
                None => SeparatorTuning::default(),
            };
            let selection: EmbeddingPool = match &config.speaker_selection_pool {
                Some(p) => p.clone(),
                None => pool.clone(),
            };
            Some(
                SeparationPlan {
                    sepformer: paths::copy_path(sepformer),
                    ecapa: paths::copy_path(ecapa),
                    tuning,
                    pool: selection,
                },
            )
        },
        (None, None) => None,
        _ => {
            return Err(
                AudioIoError::Pipeline(
                    String::from_str(
                        "SepFormer and speaker-embedding ONNX paths must be configured together",
                    ),
                ),
            );
        },
    };
    let gate_tuning: Option<GateTuning> = match &config.gate_tuning {
        Some(t) => {
            let mut t: GateTuning = *t;
            let threshold: Binary32 = t.threshold();
            t.update_diagnostics(Binary32 { bits: 0 }, threshold);
            Some(t)
        },
        None => None,
    };
    Ok(SessionPlan { streaming, separation, gate_tuning, dfn3_enabled, adaptive_enabled })
}

/// A control goes where it is set: a number within its bounds is taken as it is,
/// one beyond them comes to the nearer bound, and what is not finite changes
/// nothing.
pub proof fn law_controls_go_where_they_are_set(
    current: Binary32,
    value: Binary32,
    low: u32,
    high: u32,
)
    requires
        (Binary32 { bits: low }).le(Binary32 { bits: high }),
    ensures
        ({
            let a = Binary32 { bits: low };
            let b = Binary32 { bits: high };
            let after = adjusted(current, value, low, high);
            &&& value.finite() && a.le(value) && value.le(b) ==> after == value
            &&& value.finite() && value.lt(a) ==> after == a
            &&& value.finite() && b.lt(value) ==> after == b
            &&& !value.finite() ==> after == current
        }),
{
    let a = Binary32 { bits: low };
    let b = Binary32 { bits: high };
    assert(!a.nan() && !b.nan()) by {
        reveal(Binary32::le);
    }
    if value.finite() {
        crate::binary32::lemma_total(value, a, b);
        crate::binary32::lemma_total(b, value, b);
        crate::binary32::lemma_total(a, b, value);
    }
}

/// A tuned gate passes and holds as the controls say, whatever it was set to
/// before; tuning it once more changes nothing.
pub proof fn law_tuned_gates_follow_the_controls(t: TuningModel, a: GateConfig, b: GateConfig)
    ensures
        tuned(t, a).theta_pass == t.threshold,
        tuned(t, a).hangover_ms == t.hangover_ms,
        tuned(t, a).release_ms == t.release_ms,
        tuned(t, tuned(t, a)) == tuned(t, a),
        a.attack_ms == b.attack_ms && a.theta_f0 == b.theta_f0 && a.use_as_norm == b.use_as_norm
            && a.other_speaker_margin == b.other_speaker_margin && a.hangover_floor_frac
            == b.hangover_floor_frac ==> tuned(t, a) == tuned(t, b),
{
}

/// A session starts with the controls as they are set, no score, and the set
/// threshold in effect.
pub proof fn law_sessions_start_with_the_set_controls(t: TuningModel)
    ensures
        at_start(t).threshold == t.threshold,
        at_start(t).hangover_ms == t.hangover_ms,
        at_start(t).release_ms == t.release_ms,
        at_start(t).last_score.bits == 0,
        at_start(t).effective_threshold == t.threshold,
{
}

} // verus!
