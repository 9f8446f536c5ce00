//! State of the application, and what becomes of it.
//!
//! The profile is held in memory, built from a recording and loaded again on
//! the next launch. The outside work of an action is done by the application
//! in steps, which the state asks for one by one; every refusal on the way
//! leaves the profile as it was.

use crate::binary32::Binary32;
use crate::capture;
use crate::capture::enrollment_consistency;
use crate::enrollment::EmbeddingPool;
use crate::enrollment::EnrollmentMetadata;
use crate::enrollment::PersistenceError;
use crate::enrollment::PoolModel;
use crate::gating::GateConfig;
use crate::pipeline::default_live_pipeline_cfg;
use crate::pipeline::PipelineConfig;
use crate::separation::SeparatorTuning;
use crate::session::GateTuning;
use crate::session::TuningModel;
use crate::text;
use crate::vectors;
use crate::worker::LiveSessionStats;
use std::path::PathBuf;
use vstd::prelude::*;
use vstd::string::StringExecFns;

verus! {

/// Rate used end to end.
pub const OUTPUT_SAMPLE_RATE: u32 = 48_000;

/// Rate of the identity decision.
pub const DECISION_SAMPLE_RATE: u32 = 16_000;

/// Bits of `20.0`: seconds of a guided recording.
pub const DEFAULT_RECORD_SECS: u32 = 0x41a0_0000;

/// Anchors without which a recording is refused. Keeping the previous profile
/// is safer than replacing it with a thin one.
pub const MIN_ENROLLMENT_ANCHORS: usize = 6;

/// Bits of `0.40`: consistency below which a recording is refused.
pub const MIN_ENROLLMENT_CONSISTENCY: u32 = 0x3ecc_cccd;

/// Bits of `0.60`: consistency of a good profile.
pub const GOOD_CONSISTENCY: u32 = 0x3f19_999a;

/// Where the current enrollment came from.
#[derive(Debug, PartialEq, Eq)]
pub enum EnrollmentOrigin {
    /// Nothing is enrolled.
    Nowhere,
    /// Recorded with the microphone.
    Mic { secs: u32 },
    /// Loaded on launch from that file.
    AutoLoaded(PathBuf),
}

/// An audio device, as far as the choice of one goes.
#[derive(Debug, Clone)]
pub struct AudioDevice {
    pub name: String,
}

/// How good a profile is.
#[derive(Debug, Clone, Copy, PartialEq, Eq, Structural)]
pub enum Grade {
    Good,
    Usable,
    RecordAgain,
}

/// Locally computed quality of a profile.
#[derive(Debug, Clone, Copy, PartialEq, Eq, Structural)]
pub struct Quality {
    pub grade: Grade,
    pub consistency: Binary32,
}

/// The quality of a profile with these anchors.
pub open spec fn quality_of(anchors: Seq<Seq<Binary32>>) -> Quality {
    let c = capture::consistency(anchors);
    Quality {
        grade: if (Binary32 { bits: GOOD_CONSISTENCY }).le(c) {
            Grade::Good
        } else if (Binary32 { bits: MIN_ENROLLMENT_CONSISTENCY }).le(c) {
            Grade::Usable
        } else {
            Grade::RecordAgain
        },
        consistency: c,
    }
}

/// The quality of a profile with these anchors.
pub fn grade_profile(anchors: &[Vec<Binary32>]) -> (r: Quality)
    ensures
        r == quality_of(vectors::rows(anchors@)),
{
    let consistency: Binary32 = enrollment_consistency(anchors);
    let grade: Grade = if (Binary32 { bits: GOOD_CONSISTENCY }).at_most(consistency) {
        Grade::Good
    } else if (Binary32 { bits: MIN_ENROLLMENT_CONSISTENCY }).at_most(consistency) {
        Grade::Usable
    } else {
        Grade::RecordAgain
    };
    Quality { grade, consistency }
}

/// The names behind a list of devices.
pub open spec fn names(devices: Seq<AudioDevice>) -> Seq<Seq<char>> {
    Seq::new(devices.len(), |i: int| devices[i].name@)
}

/// The text behind an optional one.
pub open spec fn optional_text(s: Option<String>) -> Option<Seq<char>> {
    match s {
        Some(x) => Some(x@),
        None => None,
    }
}

/// The model behind an optional pool.
pub open spec fn optional_pool(p: Option<EmbeddingPool>) -> Option<PoolModel> {
    match p {
        Some(x) => Some(x@),
        None => None,
    }
}

pub open spec fn optional_valid(p: Option<EmbeddingPool>) -> bool {
    p matches Some(x) ==> x.valid()
}

/// `i` is the first device that is `wanted`.
pub open spec fn is_first(devices: Seq<Seq<char>>, wanted: spec_fn(Seq<char>) -> bool, i: int) -> bool {
    &&& 0 <= i < devices.len()
    &&& wanted(devices[i])
    &&& forall|k: int| 0 <= k < i ==> !wanted(#[trigger] devices[k])
}

/// A name that equals the request.
pub open spec fn equals(request: Seq<char>) -> spec_fn(Seq<char>) -> bool {
    |name: Seq<char>| name == request
}

/// A name that holds the request, case ignored.
pub open spec fn holds_ignoring_case(request: Seq<char>) -> spec_fn(Seq<char>) -> bool {
    |name: Seq<char>| text::holds(text::lowercase(name), text::lowercase(request))
}

/// `r` is the device that a request comes to: the first with exactly that
/// name, else the first that holds it, case ignored, else none.
pub open spec fn preferred(request: Seq<char>, devices: Seq<Seq<char>>, r: Option<Seq<char>>) -> bool {
    if exists|k: int| 0 <= k < devices.len() && #[trigger] devices[k] == request {
        r == Some(request)
    } else {
        match r {
            Some(name) => exists|i: int|
                #[trigger] is_first(devices, holds_ignoring_case(request), i) && name == devices[i],
            None => forall|k: int|
                0 <= k < devices.len() ==> !holds_ignoring_case(request)(#[trigger] devices[k]),
        }
    }
}

/// Resolves a preferred audio device without hard-coding a full device name:
/// an exact match wins, otherwise the request is looked for in the names, case
/// ignored.
pub fn preferred_device(requested: Option<&str>, devices: &Vec<AudioDevice>) -> (r: Option<String>)
    ensures
        requested is None ==> r is None,
        requested matches Some(q) ==> preferred(q@, names(devices@), optional_text(r)),
{
    let request: &str = match requested {
        Some(q) => q,
        None => {
            return None;
        },
    };
    let ghost d = names(devices@);
    let owned: String = String::from_str(request);
    let mut i: usize = 0;
    while i < devices.len()
        invariant
            i <= devices@.len(),
            d == names(devices@),
            requested == Some(request),
            owned@ == request@,
            forall|k: int| 0 <= k < i ==> #[trigger] d[k] != request@,
        decreases devices@.len() - i,
    {
        if devices[i].name == owned {
            assert(d[i as int] == request@);
            return Some(owned);
        }
        assert(d[i as int] == devices@[i as int].name@);
        i = i + 1;
    }
    let mut i: usize = 0;
    let ghost wanted = holds_ignoring_case(request@);
    while i < devices.len()
        invariant
            i <= devices@.len(),
            d == names(devices@),
            requested == Some(request),
            wanted == holds_ignoring_case(request@),
            forall|k: int| 0 <= k < d.len() ==> #[trigger] d[k] != request@,
            forall|k: int| 0 <= k < i ==> !wanted(#[trigger] d[k]),
        decreases devices@.len() - i,
    {
        assert(d[i as int] == devices@[i as int].name@);
        if text::contains_ignoring_case(devices[i].name.as_str(), request) {
            assert(is_first(d, wanted, i as int));
            return Some(devices[i].name.clone());
        }
        i = i + 1;
    }
    None
}

/// The state of the application, as far as it decides anything. The session
/// and the recorder themselves belong to the application.
#[derive(Debug)]
pub struct AppState {
    /// Current speaker pool. `None` until the user enrolls a voice.
    pub pool: Option<EmbeddingPool>,
    /// Companion pool with embeddings measured after separation.
    pub separator_pool: Option<EmbeddingPool>,
    pub origin: EnrollmentOrigin,
    pub pool_anchors: usize,
    pub pool_f0_mu: Binary32,
    pub pool_f0_sigma: Binary32,
    pub enrollment_quality: Option<Quality>,
    pub available_inputs: Vec<AudioDevice>,
    pub available_outputs: Vec<AudioDevice>,
    /// Selected input device; `None` means the host default.
    pub selected_input: Option<String>,
    pub selected_output: Option<String>,
    /// Model of the target-speaker extractor.
    pub tse_onnx_path: Option<PathBuf>,
    pub record_duration_secs: Binary32,
    pub gate_cfg: GateConfig,
    pub gate_tuning: GateTuning,
    pub pipeline_cfg: PipelineConfig,
    pub separator_tuning: SeparatorTuning,
    /// Whether the recording in flight extends the saved enrollment instead
    /// of replacing it.
    pub pending_append: bool,
    /// Whether a session runs.
    pub running: bool,
    /// Whether a recording is in flight.
    pub recording: bool,
    pub last_error: Option<String>,
    pub last_stats: LiveSessionStats,
}

/// What an [`AppState`] holds of the profile and of what the user is shown.
#[verifier::ext_equal]
pub struct ProfileModel {
    pub pool: Option<PoolModel>,
    pub separator_pool: Option<PoolModel>,
    pub origin: EnrollmentOrigin,
    pub anchors: usize,
    pub f0_mu: Binary32,
    pub f0_sigma: Binary32,
    pub quality: Option<Quality>,
    pub pending_append: bool,
    pub running: bool,
    pub recording: bool,
    pub last_error: Option<Seq<char>>,
    pub stats: LiveSessionStats,
}

/// The choices that the user made.
#[verifier::ext_equal]
pub struct ChoiceModel {
    pub inputs: Seq<Seq<char>>,
    pub outputs: Seq<Seq<char>>,
    pub selected_input: Option<Seq<char>>,
    pub selected_output: Option<Seq<char>>,
    pub tse: Option<PathBuf>,
    pub record_secs: Binary32,
    pub gate_cfg: GateConfig,
    pub gate_tuning: TuningModel,
    pub pipeline_cfg: PipelineConfig,
    pub separator_tuning: SeparatorTuning,
}

impl AppState {
    pub open spec fn profile(self) -> ProfileModel {
        ProfileModel {
            pool: optional_pool(self.pool),
            separator_pool: optional_pool(self.separator_pool),
            origin: self.origin,
            anchors: self.pool_anchors,
            f0_mu: self.pool_f0_mu,
            f0_sigma: self.pool_f0_sigma,
            quality: self.enrollment_quality,
            pending_append: self.pending_append,
            running: self.running,
            recording: self.recording,
            last_error: optional_text(self.last_error),
            stats: self.last_stats,
        }
    }

    pub open spec fn choices(self) -> ChoiceModel {
        ChoiceModel {
            inputs: names(self.available_inputs@),
            outputs: names(self.available_outputs@),
            selected_input: optional_text(self.selected_input),
            selected_output: optional_text(self.selected_output),
            tse: self.tse_onnx_path,
            record_secs: self.record_duration_secs,
            gate_cfg: self.gate_cfg,
            gate_tuning: self.gate_tuning@,
            pipeline_cfg: self.pipeline_cfg,
            separator_tuning: self.separator_tuning,
        }
    }

    /// Both pools are valid.
    pub open spec fn valid(self) -> bool {
        optional_valid(self.pool) && optional_valid(self.separator_pool)
    }
}

/// The state with a profile stored.
pub open spec fn with_profile(m: ProfileModel, pool: PoolModel, origin: EnrollmentOrigin) -> ProfileModel {
    ProfileModel {
        pool: Some(pool),
        origin,
        anchors: pool.anchors.len() as usize,
        f0_mu: pool.metadata.f0_mu,
        f0_sigma: pool.metadata.f0_sigma,
        quality: Some(quality_of(pool.anchors)),
        last_error: None,
        ..m
    }
}

/// The state without a profile.
pub open spec fn without_profile(m: ProfileModel) -> ProfileModel {
    ProfileModel {
        pool: None,
        separator_pool: None,
        origin: EnrollmentOrigin::Nowhere,
        anchors: 0,
        f0_mu: Binary32 { bits: 0 },
        f0_sigma: Binary32 { bits: 0 },
        quality: None,
        ..m
    }
}

/// The state with a failure to show, and nothing else changed.
pub open spec fn failed(m: ProfileModel, message: Seq<char>) -> ProfileModel {
    ProfileModel { last_error: Some(message), ..m }
}

impl AppState {
    /// An idle state, with the preferred devices where they are there.
    pub fn new(
        available_inputs: Vec<AudioDevice>,
        available_outputs: Vec<AudioDevice>,
        requested_input: Option<&str>,
        requested_output: Option<&str>,
        tse_onnx_path: Option<PathBuf>,
        gate_cfg: GateConfig,
        separator_threshold: Binary32,
    ) -> (r: Self)
        ensures
            r.valid(),
            r.profile() == without_profile(
                (ProfileModel {
                    pending_append: false,
                    running: false,
                    recording: false,
                    last_error: None,
                    stats: (LiveSessionStats {
                        samples_processed: 0,
                        input_overruns: 0,
                        output_underruns: 0,
                    }),
                    ..r.profile()
                }),
            ),
            r.choices().inputs == names(available_inputs@),
            r.choices().outputs == names(available_outputs@),
            requested_input is None ==> r.selected_input is None,
            requested_input matches Some(q) ==> preferred(
                q@,
                names(available_inputs@),
                r.choices().selected_input,
            ),
            requested_output is None ==> r.selected_output is None,
            requested_output matches Some(q) ==> preferred(
                q@,
                names(available_outputs@),
                r.choices().selected_output,
            ),
            r.tse_onnx_path == tse_onnx_path,
            r.record_duration_secs.bits == DEFAULT_RECORD_SECS,
            r.gate_cfg == gate_cfg,
            r.gate_tuning@ == (TuningModel {
                threshold: gate_cfg.theta_pass,
                hangover_ms: gate_cfg.hangover_ms,
                release_ms: gate_cfg.release_ms,
                last_score: Binary32 { bits: 0 },
                effective_threshold: gate_cfg.theta_pass,
            }),
            r.pipeline_cfg == PipelineConfig::live(),
            r.separator_tuning.limit() == separator_threshold,
            r.separator_tuning.last().bits == 0,
    {
        let selected_input: Option<String> = preferred_device(requested_input, &available_inputs);
        let selected_output: Option<String> = preferred_device(
            requested_output,
            &available_outputs,
        );
        AppState {
            pool: None,
            separator_pool: None,
            origin: EnrollmentOrigin::Nowhere,
            pool_anchors: 0,
            pool_f0_mu: Binary32 { bits: 0 },
            pool_f0_sigma: Binary32 { bits: 0 },
            enrollment_quality: None,
            available_inputs,
            available_outputs,
            selected_input,
            selected_output,
            tse_onnx_path,
            record_duration_secs: Binary32 { bits: DEFAULT_RECORD_SECS },
            gate_cfg,
            gate_tuning: GateTuning::new(gate_cfg),
            pipeline_cfg: default_live_pipeline_cfg(),
            separator_tuning: SeparatorTuning::new(separator_threshold),
            pending_append: false,
            running: false,
            recording: false,
            last_error: None,
            last_stats: LiveSessionStats {
                samples_processed: 0,
                input_overruns: 0,
                output_underruns: 0,
            },
        }
    }

    /// Takes over a fresh list of devices, and keeps a selection only where
    /// the named device is still present.
    pub fn refresh_devices(&mut self, inputs: Vec<AudioDevice>, outputs: Vec<AudioDevice>)
        requires
            old(self).valid(),
        ensures
            final(self).valid(),
            final(self).profile() == old(self).profile(),
            final(self).choices() == (ChoiceModel {
                inputs: names(inputs@),
                outputs: names(outputs@),
                selected_input: still_there(old(self).choices().selected_input, names(inputs@)),
                selected_output: still_there(
                    old(self).choices().selected_output,
                    names(outputs@),
                ),
                ..old(self).choices()
            }),
    {
        let keep_input: bool = match &self.selected_input {
            Some(name) => is_listed(name, &inputs),
            None => true,
        };
        let keep_output: bool = match &self.selected_output {
            Some(name) => is_listed(name, &outputs),
            None => true,
        };
        self.available_inputs = inputs;
        self.available_outputs = outputs;
        if !keep_input {
            self.selected_input = None;
        }
        if !keep_output {
            self.selected_output = None;
        }
    }

    /// Stores a profile and what is shown of it.
    pub fn store_pool(&mut self, pool: EmbeddingPool, origin: EnrollmentOrigin)
        requires
            old(self).valid(),
            pool.valid(),
        ensures
            final(self).valid(),
            final(self).choices() == old(self).choices(),
            final(self).profile() == with_profile(old(self).profile(), pool@, origin),
    {
        let m: EnrollmentMetadata = pool.metadata();
        let anchors: &[Vec<Binary32>] = pool.anchors();
        self.pool_anchors = anchors.len();
        self.pool_f0_mu = m.f0_mu;
        self.pool_f0_sigma = m.f0_sigma;
        self.enrollment_quality = Some(grade_profile(anchors));
        assert(vectors::rows(anchors@).len() == anchors@.len());
        self.origin = origin;
        self.pool = Some(pool);
        self.last_error = None;
    }

    /// Drops the profile.
    pub fn clear_pool(&mut self)
        ensures
            final(self).valid(),
            final(self).choices() == old(self).choices(),
            final(self).profile() == without_profile(old(self).profile()),
    {
        self.pool = None;
        self.separator_pool = None;
        self.origin = EnrollmentOrigin::Nowhere;
        self.pool_anchors = 0;
        self.pool_f0_mu = Binary32 { bits: 0 };
        self.pool_f0_sigma = Binary32 { bits: 0 };
        self.enrollment_quality = None;
    }

    /// Shows a failure.
    pub fn fail(&mut self, message: String)
        ensures
            final(self).choices() == old(self).choices(),
            final(self).profile() == failed(old(self).profile(), message@),
            old(self).valid() ==> final(self).valid(),
    {
        self.last_error = Some(message);
    }

    /// Takes over the enrollment that was loaded from `path` on launch, with
    /// its companion where there is one; drops the profile where loading
    /// failed.
    pub fn load_enrollment_json(
        &mut self,
        path: PathBuf,
        loaded: Result<EmbeddingPool, PersistenceError>,
        companion: Option<EmbeddingPool>,
    )
        requires
            old(self).valid(),
            loaded matches Ok(p) ==> p.valid(),
            optional_valid(companion),
        ensures
            final(self).valid(),
            final(self).choices() == old(self).choices(),
            final(self).profile() == (match loaded {
                Ok(p) => ProfileModel {
                    separator_pool: optional_pool(companion),
                    ..with_profile(
                        old(self).profile(),
                        p@,
                        EnrollmentOrigin::AutoLoaded(path),
                    )
                },
                Err(e) => failed(
                    without_profile(old(self).profile()),
                    "load enrollment: "@ + e.text(),
                ),
            }),
    {
        match loaded {
            Ok(p) => {
                self.store_pool(p, EnrollmentOrigin::AutoLoaded(path));
                self.separator_pool = companion;
            },
            Err(e) => {
                self.clear_pool();
                self.fail(text::joined("load enrollment: ", e.message().as_str()));
            },
        }
    }
}

/// A selection, where it is still listed.
pub open spec fn still_there(selected: Option<Seq<char>>, listed: Seq<Seq<char>>) -> Option<
    Seq<char>,
> {
    match selected {
        Some(name) => if listed.contains(name) {
            Some(name)
        } else {
            None
        },
        None => None,
    }
}

fn is_listed(name: &String, devices: &Vec<AudioDevice>) -> (r: bool)
    ensures
        r == names(devices@).contains(name@),
{
    let ghost d = names(devices@);
    let mut i: usize = 0;
    while i < devices.len()
        invariant
            i <= devices@.len(),
            d == names(devices@),
            forall|k: int| 0 <= k < i ==> #[trigger] d[k] != name@,
        decreases devices@.len() - i,
    {
        assert(d[i as int] == devices@[i as int].name@);
        if devices[i].name == *name {
            return true;
        }
        i = i + 1;
    }
    false
}

/// Whatever a request comes to is a listed device whose name holds the request,
/// case ignored, or equals it; an exact match wins over every other, among the
/// rest the earliest in the list, and nothing is chosen only where no name fits.
pub proof fn law_requests_come_to_a_listed_device(
    request: Seq<char>,
    devices: Seq<Seq<char>>,
    r: Option<Seq<char>>,
)
    requires
        preferred(request, devices, r),
    ensures
        devices.contains(request) ==> r == Some(request),
        r matches Some(name) ==> devices.contains(name) && (name == request || text::holds(
            text::lowercase(name),
            text::lowercase(request),
        )),
        forall|k: int|
            0 <= k < devices.len() && text::holds(
                text::lowercase(#[trigger] devices[k]),
                text::lowercase(request),
            ) ==> r is Some && (devices.contains(request) || exists|i: int|
                0 <= i <= k && #[trigger] devices[i] == r->0),
{
    let wanted = holds_ignoring_case(request);
    if exists|k: int| 0 <= k < devices.len() && #[trigger] devices[k] == request {
        let k = choose|k: int| 0 <= k < devices.len() && #[trigger] devices[k] == request;
        assert(devices.contains(devices[k]));
    } else if r is Some {
        let i = choose|i: int|
            #[trigger] is_first(devices, wanted, i) && r->0 == devices[i];
        assert(devices.contains(devices[i]));
        assert forall|k: int|
            0 <= k < devices.len() && text::holds(
                text::lowercase(#[trigger] devices[k]),
                text::lowercase(request),
            ) implies exists|j: int| 0 <= j <= k && #[trigger] devices[j] == r->0 by {
            assert(wanted(devices[k]));
            assert(i <= k && devices[i] == r->0);
        }
    } else {
        assert forall|k: int| 0 <= k < devices.len() implies !text::holds(
            text::lowercase(#[trigger] devices[k]),
            text::lowercase(request),
        ) by {
            assert(!wanted(devices[k]));
        }
    }
}

/// A selection outlives a new list of devices exactly where its device does.
pub proof fn law_selections_follow_the_list(selected: Option<Seq<char>>, listed: Seq<Seq<char>>)
    ensures
        selected matches Some(name) ==> (still_there(selected, listed) is Some
            <==> listed.contains(name)),
        still_there(selected, listed) matches Some(name) ==> selected == Some(name),
{
}

/// How far up a grade is.
pub open spec fn rank(g: Grade) -> int {
    match g {
        Grade::Good => 2,
        Grade::Usable => 1,
        Grade::RecordAgain => 0,
    }
}

/// More consistent anchors never get a lower grade. From 0.60 on the grade is
/// the best; a consistency below 0.40, or one that is not a number, asks for
/// another recording.
pub proof fn law_grades_follow_the_consistency(a: Seq<Seq<Binary32>>, b: Seq<Seq<Binary32>>)
    ensures
        quality_of(a).consistency == capture::consistency(a),
        capture::consistency(a).le(capture::consistency(b)) ==> rank(quality_of(a).grade) <= rank(
            quality_of(b).grade,
        ),
        (Binary32 { bits: 0x3f19_999a }).le(capture::consistency(a)) ==> rank(quality_of(a).grade)
            == 2,
        capture::consistency(a).lt(Binary32 { bits: 0x3f19_999a }) ==> rank(quality_of(a).grade)
            < 2,
        (Binary32 { bits: 0x3ecc_cccd }).le(capture::consistency(a)) ==> rank(quality_of(a).grade)
            > 0,
        capture::consistency(a).lt(Binary32 { bits: 0x3ecc_cccd }) || capture::consistency(a).nan()
            ==> rank(quality_of(a).grade) == 0,
{
    let c = capture::consistency(a);
    let d = capture::consistency(b);
    let good = Binary32 { bits: 0x3f19_999a };
    let usable = Binary32 { bits: 0x3ecc_cccd };
    crate::binary32::lemma_format();
    assert(!good.nan() && !usable.nan());
    assert(usable.lt(good)) by {
        reveal(Binary32::lt);
        crate::binary::lemma_order(
            crate::binary32::format(),
            usable.parts().pattern,
            good.parts().pattern,
        );
    }
    if c.nan() || d.nan() {
        reveal(Binary32::le);
        reveal(Binary32::lt);
    }
    if !c.nan() {
        crate::binary32::lemma_total(c, usable, good);
        crate::binary32::lemma_total(c, good, good);
        crate::binary32::lemma_total(usable, good, c);
        if !d.nan() {
            crate::binary32::lemma_total(usable, c, d);
            crate::binary32::lemma_total(good, c, d);
        }
    }
}

/// What is shown of a profile is read off the profile itself, and storing one
/// touches neither its companion nor what runs; dropping it drops all of that
/// with it, and nothing else.
pub proof fn law_shown_figures_are_those_of_the_profile(
    m: ProfileModel,
    pool: PoolModel,
    origin: EnrollmentOrigin,
)
    requires
        pool.anchors.len() <= usize::MAX,
    ensures
        ({
            let with = with_profile(m, pool, origin);
            let without = without_profile(m);
            &&& with.pool == Some(pool)
            &&& with.anchors == pool.anchors.len()
            &&& with.f0_mu == pool.metadata.f0_mu
            &&& with.f0_sigma == pool.metadata.f0_sigma
            &&& with.quality == Some(quality_of(pool.anchors))
            &&& with.origin == origin
            &&& with.last_error is None
            &&& with.separator_pool == m.separator_pool
            &&& with.running == m.running && with.recording == m.recording
            &&& with.pending_append == m.pending_append && with.stats == m.stats
            &&& without.pool is None && without.separator_pool is None && without.quality is None
            &&& without.anchors == 0 && without.f0_mu.bits == 0 && without.f0_sigma.bits == 0
            &&& without.origin == EnrollmentOrigin::Nowhere
            &&& without.running == m.running && without.recording == m.recording
            &&& without.pending_append == m.pending_append && without.stats == m.stats
            &&& without.last_error == m.last_error
        }),
{
}

} // verus!
