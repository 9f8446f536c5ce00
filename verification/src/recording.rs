//! From a recording to a profile.
//!
//! A recording replaces the profile, or extends it with one more registration.
//! It does so only after every check has passed: whatever refuses it on the
//! way leaves the profile as it was and says so.

use crate::binary32::Binary32;
use crate::capture;
use crate::capture::enrollment_consistency;
use crate::capture::validate_enrollment_capture;
use crate::capture::CaptureFault;
use crate::enrollment::EmbeddingPool;
use crate::enrollment::EnrollmentMetadata;
use crate::enrollment::PersistenceError;
use crate::enrollment::PoolModel;
use crate::paths;
use crate::resample;
use crate::resample::resample_to;
use crate::resample::ResampleError;
use crate::state;
use crate::state::AppState;
use crate::state::EnrollmentOrigin;
use crate::state::ProfileModel;
use crate::state::DECISION_SAMPLE_RATE;
use crate::state::MIN_ENROLLMENT_ANCHORS;
use crate::state::MIN_ENROLLMENT_CONSISTENCY;
use crate::state::OUTPUT_SAMPLE_RATE;
use crate::text;
use crate::vectors;
use std::path::PathBuf;
use vstd::prelude::*;
use vstd::string::StringExecFns;

verus! {

/// The figure that an explanation quotes, and its decimal places.
pub open spec fn figure(fault: CaptureFault) -> Option<(Binary32, u32)> {
    match fault {
        CaptureFault::Broken => None,
        CaptureFault::TooQuiet { rms_dbfs } => Some((rms_dbfs, 0)),
        CaptureFault::Clipped { percent } => Some((percent, 2)),
        CaptureFault::DcOffset => None,
        CaptureFault::TooLittleSpeech { percent } => Some((percent, 0)),
    }
}

/// What is wrong with a recording, in the words for the user; `n` writes the
/// figure.
pub open spec fn explained(fault: CaptureFault, n: Seq<char>) -> Seq<char> {
    match fault {
        CaptureFault::Broken => "マイク入力が空か壊れています"@,
        CaptureFault::TooQuiet { .. } => "声が小さすぎます（平均 "@ + n
            + " dBFS）。Windowsのマイク音量を上げ、15〜25cmの距離で話してください"@,
        CaptureFault::Clipped { .. } => "音割れしています（クリップ "@ + n
            + "%）。Windowsのマイク音量を下げるか、マイクから少し離れてください"@,
        CaptureFault::DcOffset =>
            "マイク信号に大きな直流ずれがあります。入力デバイスを選び直してください"@,
        CaptureFault::TooLittleSpeech { .. } => "発話区間が少なすぎます（"@ + n
            + "%）。20秒間、文章を止まらず繰り返してください"@,
    }
}

/// `number` may write `x` with so many decimal places as `t`.
pub open spec fn written<N: Fn(Binary32, u32) -> String>(
    number: &N,
    x: Binary32,
    places: u32,
    t: Seq<char>,
) -> bool {
    exists|s: String| #[trigger] number.ensures((x, places), s) && s@ == t
}

/// `n` writes the figure that an explanation quotes, where it quotes one.
pub open spec fn figure_written<N: Fn(Binary32, u32) -> String>(
    number: &N,
    fault: CaptureFault,
    n: Seq<char>,
) -> bool {
    figure(fault) matches Some(f) ==> written(number, f.0, f.1, n)
}

/// What is wrong with a recording, in the words for the user. `number` writes
/// a number with the given decimal places.
pub fn explain<N>(fault: CaptureFault, number: &N) -> (r: String) where
    N: Fn(Binary32, u32) -> String,
    requires
        forall|x: Binary32, places: u32| number.requires((x, places)),
    ensures
        exists|n: Seq<char>| #[trigger] figure_written(number, fault, n) && r@ == explained(fault, n),
{
    match fault {
        CaptureFault::Broken => {
            proof {
                assert(figure_written(number, fault, Seq::empty()));
            }
            String::from_str("マイク入力が空か壊れています")
        },
        CaptureFault::TooQuiet { rms_dbfs } => {
            let n: String = number(rms_dbfs, 0);
            proof {
                assert(number.ensures((rms_dbfs, 0u32), n));
                assert(figure_written(number, fault, n@));
            }
            text::enclosed(
                "声が小さすぎます（平均 ",
                n.as_str(),
                " dBFS）。Windowsのマイク音量を上げ、15〜25cmの距離で話してください",
            )
        },
        CaptureFault::Clipped { percent } => {
            let n: String = number(percent, 2);
            proof {
                assert(number.ensures((percent, 2u32), n));
                assert(figure_written(number, fault, n@));
            }
            text::enclosed(
                "音割れしています（クリップ ",
                n.as_str(),
                "%）。Windowsのマイク音量を下げるか、マイクから少し離れてください",
            )
        },
        CaptureFault::DcOffset => {
            proof {
                assert(figure_written(number, fault, Seq::empty()));
            }
            String::from_str(
                "マイク信号に大きな直流ずれがあります。入力デバイスを選び直してください",
            )
        },
        CaptureFault::TooLittleSpeech { percent } => {
            let n: String = number(percent, 0);
            proof {
                assert(number.ensures((percent, 0u32), n));
                assert(figure_written(number, fault, n@));
            }
            text::enclosed(
                "発話区間が少なすぎます（",
                n.as_str(),
                "%）。20秒間、文章を止まらず繰り返してください",
            )
        },
    }
}

/// The message about a recording that is not good enough.
pub open spec fn capture_message(explanation: Seq<char>) -> Seq<char> {
    "声紋登録を中止しました: "@ + explanation
        + "。保存済みの声紋は変更していません。"@
}

/// The message about a recording that gave too few anchors.
pub open spec fn few_anchors_message(n: nat) -> Seq<char> {
    "声の特徴点が"@ + text::decimal_text(n) + "個しか取れませんでした（"@
        + text::decimal_text(MIN_ENROLLMENT_ANCHORS as nat)
        + "個以上必要）。マイクに近づき、20秒間止まらず読み上げてください。保存済みの声紋は変更していません。"@
}

/// The message about anchors that do not resemble each other; the texts write
/// the consistency and the one that is asked for.
pub open spec fn unstable_message(consistency: Seq<char>, wanted: Seq<char>) -> Seq<char> {
    "声の特徴が安定していません（一貫度 "@ + consistency + "、必要値 "@ + wanted
        + "）。スピーカー音を止め、マイクから15〜25cm離れて同じ声量で読み直してください。保存済みの声紋は変更していません。"@
}

/// The message about a recording that the separator could not use.
pub open spec fn calibration_message(error: Seq<char>) -> Seq<char> {
    "分離後の本人声紋を登録できませんでした: "@ + error
        + "。保存済みの声紋は変更していません。"@
}

/// Mean of both recordings, weighted by their anchors.
pub open spec fn joint_mean(n: nat, a: Binary32, m: nat, b: Binary32) -> Binary32 {
    let total = Binary32::whole(n).sum(Binary32::whole(m));
    Binary32::whole(n).product(a).sum(Binary32::whole(m).product(b)).quotient(total)
}

/// Mean square that a Gaussian stands for.
pub open spec fn mean_square(g: EnrollmentMetadata) -> Binary32 {
    g.f0_sigma.product(g.f0_sigma).sum(g.f0_mu.product(g.f0_mu))
}

/// The pitch Gaussian of both recordings together: widened to the combination
/// that is weighted by their anchors.
pub open spec fn joint_pitch(
    n: nat,
    a: EnrollmentMetadata,
    m: nat,
    b: EnrollmentMetadata,
) -> EnrollmentMetadata {
    let mu = joint_mean(n, a.f0_mu, m, b.f0_mu);
    let variance = joint_mean(n, mean_square(a), m, mean_square(b)).difference(mu.product(mu));
    EnrollmentMetadata { f0_mu: mu, f0_sigma: variance.larger(vectors::zero()).root() }
}

/// A profile extended by another recording.
pub open spec fn extended(saved: PoolModel, new: PoolModel) -> PoolModel {
    PoolModel {
        anchors: saved.anchors + new.anchors,
        metadata: joint_pitch(saved.anchors.len(), saved.metadata, new.anchors.len(), new.metadata),
        ..saved
    }
}

/// The companion of an extended profile. Where the saved profile has none, its
/// own anchors keep taking part in the choice of a stream.
pub open spec fn extended_companion(
    saved: PoolModel,
    companion: Option<PoolModel>,
    new: Option<PoolModel>,
) -> Option<PoolModel> {
    match (companion, new) {
        (Some(c), Some(n)) => Some(PoolModel { anchors: c.anchors + n.anchors, ..c }),
        (Some(c), None) => Some(c),
        (None, Some(n)) => Some(PoolModel { anchors: n.anchors + saved.anchors, ..n }),
        (None, None) => None,
    }
}

/// The state with a recording stored: in place of the profile, or added to it.
pub open spec fn stored(
    m: ProfileModel,
    appending: bool,
    new: PoolModel,
    new_companion: Option<PoolModel>,
    origin: EnrollmentOrigin,
) -> ProfileModel {
    match m.pool {
        Some(saved) if appending => state::with_profile(
            ProfileModel {
                separator_pool: extended_companion(saved, m.separator_pool, new_companion),
                ..m
            },
            extended(saved, new),
            origin,
        ),
        _ => state::with_profile(
            ProfileModel { separator_pool: new_companion, ..m },
            new,
            origin,
        ),
    }
}

/// The pitch Gaussian of both recordings together.
fn combine_pitch(
    n: usize,
    a: EnrollmentMetadata,
    m: usize,
    b: EnrollmentMetadata,
) -> (r: EnrollmentMetadata)
    ensures
        r == joint_pitch(n as nat, a, m as nat, b),
{
    let n_old: Binary32 = Binary32::from_count(n as u64);
    let n_new: Binary32 = Binary32::from_count(m as u64);
    let total: Binary32 = n_old.plus(n_new);
    let mu: Binary32 = n_old.times(a.f0_mu).plus(n_new.times(b.f0_mu)).over(total);
    let ex2_old: Binary32 = a.f0_sigma.times(a.f0_sigma).plus(a.f0_mu.times(a.f0_mu));
    let ex2_new: Binary32 = b.f0_sigma.times(b.f0_sigma).plus(b.f0_mu.times(b.f0_mu));
    let variance: Binary32 = n_old.times(ex2_old).plus(n_new.times(ex2_new)).over(total).minus(
        mu.times(mu),
    ).maximum(Binary32 { bits: 0 });
    EnrollmentMetadata { f0_mu: mu, f0_sigma: variance.square_root() }
}

impl AppState {
    /// Begins a recording with `start`, which is given the chosen input, the
    /// rate and the seconds. With `append` the saved profile is extended,
    /// otherwise replaced. Does nothing while a recording is in flight.
    pub fn start_recording<F>(&mut self, secs: Binary32, append: bool, start: F) where
        F: FnOnce(Option<String>, u32, Binary32) -> Result<(), String>,
        requires
            old(self).valid(),
            !old(self).recording ==> forall|d: Option<String>|
                state::optional_text(d) == old(self).choices().selected_input
                    ==> #[trigger] start.requires((d, OUTPUT_SAMPLE_RATE, secs)),
        ensures
            final(self).valid(),
            final(self).choices() == old(self).choices(),
            old(self).recording ==> final(self).profile() == old(self).profile(),
            !old(self).recording ==> exists|reply: Result<(), String>| #[trigger]
                recording_asked(start, old(self).choices().selected_input, secs, reply)
                    && final(self).profile() == (match reply {
                    Ok(_) => ProfileModel {
                        pending_append: append && old(self).profile().pool is Some,
                        recording: true,
                        last_error: None,
                        ..old(self).profile()
                    },
                    Err(e) => ProfileModel {
                        pending_append: append && old(self).profile().pool is Some,
                        last_error: Some("start recording: "@ + e@),
                        ..old(self).profile()
                    },
                }),
    {
        if self.recording {
            return;
        }
        self.pending_append = append && self.pool.is_some();
        let device: Option<String> = match &self.selected_input {
            Some(name) => Some(name.clone()),
            None => None,
        };
        let ghost chosen = device;
        let reply: Result<(), String> = start(device, OUTPUT_SAMPLE_RATE, secs);
        proof {
            assert(start.ensures((chosen, OUTPUT_SAMPLE_RATE, secs), reply));
            assert(recording_asked(start, old(self).choices().selected_input, secs, reply));
        }
        match reply {
            Ok(_) => {
                self.recording = true;
                self.last_error = None;
            },
            Err(e) => {
                self.last_error = Some(text::joined("start recording: ", e.as_str()));
            },
        }
    }

    /// Whether there is a recording to cancel. The recorder then still returns
    /// what it has collected, which the next poll turns into a profile.
    pub fn cancel_recording(&self) -> (r: bool)
        ensures
            r == self.recording,
    {
        self.recording
    }

    /// Takes over what the recorder has to say, and returns the recording that
    /// is to be enrolled. `finished` is `None` while it still captures.
    pub fn poll_recorder(&mut self, finished: Option<Result<Vec<Binary32>, String>>) -> (r: Option<
        Vec<Binary32>,
    >)
        requires
            old(self).valid(),
        ensures
            final(self).valid(),
            final(self).choices() == old(self).choices(),
            !old(self).recording || finished is None ==> r is None && final(self).profile() == old(
                self,
            ).profile(),
            old(self).recording ==> (finished matches Some(result) ==> match result {
                Ok(audio) => if audio@.len() < OUTPUT_SAMPLE_RATE {
                    r is None && final(self).profile() == (ProfileModel {
                        recording: false,
                        last_error: Some(
                            "recording too short for ECAPA enrolment (need ≥ 1 s)"@,
                        ),
                        ..old(self).profile()
                    })
                } else {
                    r == Some(audio) && final(self).profile() == (ProfileModel {
                        recording: false,
                        ..old(self).profile()
                    })
                },
                Err(e) => r is None && final(self).profile() == (ProfileModel {
                    recording: false,
                    last_error: Some("recording failed: "@ + e@),
                    ..old(self).profile()
                }),
            }),
    {
        if !self.recording {
            return None;
        }
        match finished {
            None => None,
            Some(result) => {
                self.recording = false;
                match result {
                    Ok(audio) => {
                        if audio.len() < OUTPUT_SAMPLE_RATE as usize {
                            self.last_error = Some(
                                String::from_str(
                                    "recording too short for ECAPA enrolment (need ≥ 1 s)",
                                ),
                            );
                            return None;
                        }
                        Some(audio)
                    },
                    Err(e) => {
                        self.last_error = Some(text::joined("recording failed: ", e.as_str()));
                        None
                    },
                }
            },
        }
    }

    /// Folds a freshly recorded enrollment into the saved profile instead of
    /// replacing it. The anchors are appended to their pools, and the pitch is
    /// widened to both recordings, so that a morning and an evening voice stay
    /// inside the distribution. Without a saved profile the new one is stored.
    pub fn append_enrollment(
        &mut self,
        new_pool: EmbeddingPool,
        new_separator_pool: Option<EmbeddingPool>,
        origin: EnrollmentOrigin,
    )
        requires
            old(self).valid(),
            new_pool.valid(),
            state::optional_valid(new_separator_pool),
        ensures
            final(self).valid(),
            final(self).choices() == old(self).choices(),
            final(self).profile() == stored(
                old(self).profile(),
                true,
                new_pool@,
                state::optional_pool(new_separator_pool),
                origin,
            ),
    {
        let mut merged: EmbeddingPool = match &self.pool {
            Some(p) => p.clone(),
            None => {
                self.separator_pool = new_separator_pool;
                self.store_pool(new_pool, origin);
                return;
            },
        };
        let ghost saved = merged@;
        let old_anchors: Vec<Vec<Binary32>> = vectors::copy_rows(merged.anchors());
        let added: &[Vec<Binary32>] = new_pool.anchors();
        let n_old: usize = old_anchors.len();
        let n_new: usize = added.len();
        assert(n_old == saved.anchors.len() && n_new == new_pool@.anchors.len()) by {
            assert(vectors::rows(old_anchors@).len() == old_anchors@.len());
            assert(vectors::rows(added@).len() == added@.len());
        }
        let pitch: EnrollmentMetadata = combine_pitch(
            n_old,
            merged.metadata(),
            n_new,
            new_pool.metadata(),
        );
        merged.add_anchors(vectors::copy_rows(added));
        merged.set_f0_stats(pitch.f0_mu, pitch.f0_sigma);
        assert(merged@ == extended(saved, new_pool@));
        let companion: Option<EmbeddingPool> = self.separator_pool.take();
        self.separator_pool = match companion {
            Some(old_sep) => match new_separator_pool {
                Some(new_sep) => {
                    let mut both: EmbeddingPool = old_sep;
                    both.add_anchors(vectors::copy_rows(new_sep.anchors()));
                    Some(both)
                },
                None => Some(old_sep),
            },
            None => match new_separator_pool {
                Some(new_sep) => {
                    let mut both: EmbeddingPool = new_sep;
                    both.add_anchors(old_anchors);
                    Some(both)
                },
                None => None,
            },
        };
        assert(state::optional_pool(self.separator_pool) == extended_companion(
            saved,
            old(self).profile().separator_pool,
            state::optional_pool(new_separator_pool),
        ));
        self.store_pool(merged, origin);
    }
}

/// `start` may answer `reply` when it is asked to record.
pub open spec fn recording_asked<F: FnOnce(Option<String>, u32, Binary32) -> Result<(), String>>(
    start: F,
    device: Option<Seq<char>>,
    secs: Binary32,
    reply: Result<(), String>,
) -> bool {
    exists|d: Option<String>|
        state::optional_text(d) == device && #[trigger] start.ensures(
            (d, OUTPUT_SAMPLE_RATE, secs),
            reply,
        )
}

/// What the outside answered on the way from a recording to a profile. What
/// was not asked may be anything.
pub struct EnrollReplies {
    /// Whether the recording is good enough, and the text of the figure that
    /// says why not.
    pub verdict: Result<(), CaptureFault>,
    pub figure: Seq<char>,
    /// The recording at the rate of the identity decision.
    pub resampled: Result<Vec<Binary32>, String>,
    /// Whether the models could be loaded.
    pub built: Result<(), String>,
    /// The profile that they made of the recording.
    pub enrolled: Result<EmbeddingPool, String>,
    /// Texts of the consistency and of the one that is asked for.
    pub consistency: Seq<char>,
    pub wanted: Seq<char>,
    /// Whether the separator is there.
    pub separating: bool,
    /// Whether its embedding model is.
    pub embedder: Result<(), String>,
    /// The companion profile.
    pub calibrated: Result<EmbeddingPool, String>,
}

/// What comes of a recording, and whether a profile was stored.
pub open spec fn enroll_outcome(
    m: ProfileModel,
    origin: EnrollmentOrigin,
    t: EnrollReplies,
) -> (ProfileModel, bool) {
    let base = ProfileModel { pending_append: false, ..m };
    if let Err(fault) = t.verdict {
        (state::failed(base, capture_message(explained(fault, t.figure))), false)
    } else if let Err(e) = t.resampled {
        (
            state::failed(
                base,
                "resample 48 kHz → 16 kHz for ECAPA: "@ + ResampleError::Rubato(e).text(),
            ),
            false,
        )
    } else if let Err(e) = t.built {
        (state::failed(base, e@), false)
    } else {
        match t.enrolled {
            Err(e) => (state::failed(base, "enrol: "@ + e@), false),
            Ok(pool) => if pool@.anchors.len() < MIN_ENROLLMENT_ANCHORS {
                (state::failed(base, few_anchors_message(pool@.anchors.len())), false)
            } else if inconsistent(pool@.anchors) {
                (state::failed(base, unstable_message(t.consistency, t.wanted)), false)
            } else if !t.separating {
                (stored(base, m.pending_append, pool@, None, origin), true)
            } else {
                match (t.embedder, t.calibrated) {
                    (Err(e), _) => (
                        state::failed(
                            base,
                            "分離後の声紋登録用ECAPAを読み込めません: "@ + e@,
                        ),
                        false,
                    ),
                    (Ok(_), Err(e)) => (state::failed(base, calibration_message(e@)), false),
                    (Ok(_), Ok(companion)) => (
                        stored(base, m.pending_append, pool@, Some(companion@), origin),
                        true,
                    ),
                }
            },
        }
    }
}

/// Anchors that resemble each other too little to be one voice.
pub open spec fn inconsistent(anchors: Seq<Seq<Binary32>>) -> bool {
    capture::consistency(anchors).lt(Binary32 { bits: MIN_ENROLLMENT_CONSISTENCY })
}

/// `verdict` is what a recording may be judged as.
pub open spec fn capture_judged<D: Fn(Binary32) -> Binary32>(
    decibels: &D,
    audio: Seq<Binary32>,
    verdict: Result<(), CaptureFault>,
) -> bool {
    if capture::broken(audio) {
        verdict == Err::<(), CaptureFault>(CaptureFault::Broken)
    } else {
        exists|dbfs: Binary32| #[trigger]
            decibels.ensures((capture::level_to_convert(audio),), dbfs) && (
            match capture::judgement(audio, OUTPUT_SAMPLE_RATE, dbfs) {
                Some(fault) => verdict == Err::<(), CaptureFault>(fault),
                None => verdict == Ok::<(), CaptureFault>(()),
            })
    }
}

/// `enroll` may make `reply` of the audio.
pub open spec fn profile_asked<E: FnOnce(&[Binary32]) -> Result<EmbeddingPool, String>>(
    enroll: E,
    audio: Seq<Binary32>,
    reply: Result<EmbeddingPool, String>,
) -> bool {
    exists|a: &[Binary32]| a@ == audio && #[trigger] enroll.ensures((a,), reply)
}

/// `calibrate` may make `reply` of the profile and the audio.
pub open spec fn companion_asked<
    C: FnOnce(&EmbeddingPool, &[Binary32]) -> Result<EmbeddingPool, String>,
>(
    calibrate: C,
    pool: PoolModel,
    audio: Seq<Binary32>,
    reply: Result<EmbeddingPool, String>,
) -> bool {
    exists|p: &EmbeddingPool, a: &[Binary32]|
        p@ == pool && a@ == audio && #[trigger] calibrate.ensures((p, a), reply)
}

/// A reply whose profile, where there is one, is valid.
pub open spec fn reply_valid(reply: Result<EmbeddingPool, String>) -> bool {
    reply matches Ok(p) ==> p.valid()
}

/// The replies are such that the outside may have given them, each asked only
/// where everything before it went well.
pub open spec fn enroll_asked<D, N, V, B, E, S, M, C>(
    decibels: &D,
    number: &N,
    convert: &V,
    build: B,
    enroll: E,
    separating: S,
    embedder: M,
    calibrate: C,
    audio: Seq<Binary32>,
    t: EnrollReplies,
) -> bool where
    D: Fn(Binary32) -> Binary32,
    N: Fn(Binary32, u32) -> String,
    V: Fn(&[Binary32], u32, u32) -> Result<Vec<Binary32>, String>,
    B: FnOnce() -> Result<(), String>,
    E: FnOnce(&[Binary32]) -> Result<EmbeddingPool, String>,
    S: FnOnce() -> bool,
    M: FnOnce() -> Result<(), String>,
    C: FnOnce(&EmbeddingPool, &[Binary32]) -> Result<EmbeddingPool, String>,
 {
    &&& capture_judged(decibels, audio, t.verdict)
    &&& match t.verdict {
        Err(fault) => figure_written(number, fault, t.figure),
        Ok(_) => {
            &&& resample::answered(
                *convert,
                audio,
                OUTPUT_SAMPLE_RATE,
                DECISION_SAMPLE_RATE,
                t.resampled,
            )
            &&& t.resampled matches Ok(converted) ==> {
                &&& build.ensures((), t.built)
                &&& t.built is Ok ==> {
                    &&& profile_asked(enroll, resample::limited(converted@), t.enrolled)
                    &&& t.enrolled matches Ok(pool) ==> profile_judged(
                        number,
                        separating,
                        embedder,
                        calibrate,
                        audio,
                        pool@,
                        t,
                    )
                }
            }
        },
    }
}

/// The replies about a profile that was made of a recording.
pub open spec fn profile_judged<N, S, M, C>(
    number: &N,
    separating: S,
    embedder: M,
    calibrate: C,
    audio: Seq<Binary32>,
    pool: PoolModel,
    t: EnrollReplies,
) -> bool where
    N: Fn(Binary32, u32) -> String,
    S: FnOnce() -> bool,
    M: FnOnce() -> Result<(), String>,
    C: FnOnce(&EmbeddingPool, &[Binary32]) -> Result<EmbeddingPool, String>,
 {
    pool.anchors.len() >= MIN_ENROLLMENT_ANCHORS ==> if inconsistent(pool.anchors) {
        &&& written(number, capture::consistency(pool.anchors), 2, t.consistency)
        &&& written(number, Binary32 { bits: MIN_ENROLLMENT_CONSISTENCY }, 2, t.wanted)
    } else {
        &&& separating.ensures((), t.separating)
        &&& t.separating ==> {
            &&& embedder.ensures((), t.embedder)
            &&& t.embedder is Ok ==> companion_asked(calibrate, pool, audio, t.calibrated)
        }
    }
}

impl AppState {
    /// Enrolls from mono audio at the output rate, and returns whether a
    /// profile was stored. The embedding model hears the raw signal at the
    /// rate of the identity decision, as it does live. `convert` lowers the
    /// rate, `build` loads the models, `enroll` makes a profile, and where the
    /// separator is there `embedder` and `calibrate` make its companion.
    pub fn run_enrollment<D, N, V, B, E, S, M, C>(
        &mut self,
        audio_48k: &[Binary32],
        origin: EnrollmentOrigin,
        decibels: &D,
        number: &N,
        convert: &V,
        build: B,
        enroll: E,
        separating: S,
        embedder: M,
        calibrate: C,
    ) -> (r: bool) where
        D: Fn(Binary32) -> Binary32,
        N: Fn(Binary32, u32) -> String,
        V: Fn(&[Binary32], u32, u32) -> Result<Vec<Binary32>, String>,
        B: FnOnce() -> Result<(), String>,
        E: FnOnce(&[Binary32]) -> Result<EmbeddingPool, String>,
        S: FnOnce() -> bool,
        M: FnOnce() -> Result<(), String>,
        C: FnOnce(&EmbeddingPool, &[Binary32]) -> Result<EmbeddingPool, String>,

        requires
            old(self).valid(),
            !capture::broken(audio_48k@) ==> decibels.requires(
                (capture::level_to_convert(audio_48k@),),
            ),
            forall|x: Binary32, places: u32| number.requires((x, places)),
            convert.requires((audio_48k, OUTPUT_SAMPLE_RATE, DECISION_SAMPLE_RATE)),
            build.requires(()),
            forall|a: &[Binary32]| enroll.requires((a,)),
            forall|a: &[Binary32], p: Result<EmbeddingPool, String>| #[trigger]
                enroll.ensures((a,), p) ==> reply_valid(p),
            separating.requires(()),
            embedder.requires(()),
            forall|p: &EmbeddingPool, a: &[Binary32]| p.valid() ==> #[trigger] calibrate.requires(
                (p, a),
            ),
            forall|p: &EmbeddingPool, a: &[Binary32], q: Result<EmbeddingPool, String>| #[trigger]
                calibrate.ensures((p, a), q) ==> reply_valid(q),
        ensures
            final(self).valid(),
            final(self).choices() == old(self).choices(),
            exists|t: EnrollReplies| #[trigger]
                enroll_asked(
                    decibels,
                    number,
                    convert,
                    build,
                    enroll,
                    separating,
                    embedder,
                    calibrate,
                    audio_48k@,
                    t,
                ) && (final(self).profile(), r) == enroll_outcome(old(self).profile(), origin, t),
    {
        let (stored, _replies): (bool, Ghost<EnrollReplies>) = self.try_enrollment(
            audio_48k,
            origin,
            decibels,
            number,
            convert,
            build,
            enroll,
            separating,
            embedder,
            calibrate,
        );
        stored
    }

    /// [`AppState::run_enrollment`], with the replies that it got.
    fn try_enrollment<D, N, V, B, E, S, M, C>(
        &mut self,
        audio_48k: &[Binary32],
        origin: EnrollmentOrigin,
        decibels: &D,
        number: &N,
        convert: &V,
        build: B,
        enroll: E,
        separating: S,
        embedder: M,
        calibrate: C,
    ) -> (r: (bool, Ghost<EnrollReplies>)) where
        D: Fn(Binary32) -> Binary32,
        N: Fn(Binary32, u32) -> String,
        V: Fn(&[Binary32], u32, u32) -> Result<Vec<Binary32>, String>,
        B: FnOnce() -> Result<(), String>,
        E: FnOnce(&[Binary32]) -> Result<EmbeddingPool, String>,
        S: FnOnce() -> bool,
        M: FnOnce() -> Result<(), String>,
        C: FnOnce(&EmbeddingPool, &[Binary32]) -> Result<EmbeddingPool, String>,

        requires
            old(self).valid(),
            !capture::broken(audio_48k@) ==> decibels.requires(
                (capture::level_to_convert(audio_48k@),),
            ),
            forall|x: Binary32, places: u32| number.requires((x, places)),
            convert.requires((audio_48k, OUTPUT_SAMPLE_RATE, DECISION_SAMPLE_RATE)),
            build.requires(()),
            forall|a: &[Binary32]| enroll.requires((a,)),
            forall|a: &[Binary32], p: Result<EmbeddingPool, String>| #[trigger]
                enroll.ensures((a,), p) ==> reply_valid(p),
            separating.requires(()),
            embedder.requires(()),
            forall|p: &EmbeddingPool, a: &[Binary32]| p.valid() ==> #[trigger] calibrate.requires(
                (p, a),
            ),
            forall|p: &EmbeddingPool, a: &[Binary32], q: Result<EmbeddingPool, String>| #[trigger]
                calibrate.ensures((p, a), q) ==> reply_valid(q),
        ensures
            final(self).valid(),
            final(self).choices() == old(self).choices(),
            enroll_asked(
                decibels,
                number,
                convert,
                build,
                enroll,
                separating,
                embedder,
                calibrate,
                audio_48k@,
                r.1@,
            ),
            (final(self).profile(), r.0) == enroll_outcome(old(self).profile(), origin, r.1@),
    {
        let ghost m = self.profile();
        let ghost mut t: EnrollReplies = arbitrary();
        // Consumed up front, so that no refusal can leak it into a later
        // recording.
        let appending: bool = self.pending_append;
        self.pending_append = false;
        let verdict: Result<(), CaptureFault> = validate_enrollment_capture(
            audio_48k,
            OUTPUT_SAMPLE_RATE,
            decibels,
        );
        proof {
            t = EnrollReplies { verdict, ..t };
            assert(capture_judged(decibels, audio_48k@, t.verdict));
        }
        if let Err(fault) = verdict {
            let explanation: String = explain(fault, number);
            proof {
                let n = choose|n: Seq<char>| #[trigger]
                    figure_written(number, fault, n) && explanation@ == explained(fault, n);
                t = EnrollReplies { figure: n, ..t };
            }
            self.fail(
                text::enclosed(
                    "声紋登録を中止しました: ",
                    explanation.as_str(),
                    "。保存済みの声紋は変更していません。",
                ),
            );
            return (false, Ghost(t));
        }
        let lowered: Result<Vec<Binary32>, ResampleError> = resample_to(
            audio_48k,
            OUTPUT_SAMPLE_RATE,
            DECISION_SAMPLE_RATE,
            convert,
        );
        proof {
            assert(!capture::broken(audio_48k@));
            let reply = choose|reply: Result<Vec<Binary32>, String>| #[trigger]
                resample::answered(
                    *convert,
                    audio_48k@,
                    OUTPUT_SAMPLE_RATE,
                    DECISION_SAMPLE_RATE,
                    reply,
                ) && resample::converted(reply, lowered);
            t = EnrollReplies { resampled: reply, ..t };
        }
        let audio_16k: Vec<Binary32> = match lowered {
            Ok(a) => a,
            Err(e) => {
                self.fail(
                    text::joined("resample 48 kHz → 16 kHz for ECAPA: ", e.message().as_str()),
                );
                return (false, Ghost(t));
            },
        };
        let built: Result<(), String> = build();
        proof {
            t = EnrollReplies { built, ..t };
        }
        if let Err(e) = built {
            self.fail(e);
            return (false, Ghost(t));
        }
        let enrolled: Result<EmbeddingPool, String> = enroll(audio_16k.as_slice());
        proof {
            t = EnrollReplies { enrolled, ..t };
            assert(profile_asked(enroll, audio_16k@, t.enrolled));
            assert(reply_valid(enrolled));
        }
        let pool: EmbeddingPool = match enrolled {
            Ok(p) => p,
            Err(e) => {
                self.fail(text::joined("enrol: ", e.as_str()));
                return (false, Ghost(t));
            },
        };
        let anchors: usize = pool.anchors().len();
        assert(anchors == pool@.anchors.len());
        if anchors < MIN_ENROLLMENT_ANCHORS {
            let found: String = text::decimal(anchors as u64);
            let wanted: String = text::decimal(MIN_ENROLLMENT_ANCHORS as u64);
            let head: String = text::enclosed(
                "声の特徴点が",
                found.as_str(),
                "個しか取れませんでした（",
            );
            self.fail(
                text::enclosed(
                    head.as_str(),
                    wanted.as_str(),
                    "個以上必要）。マイクに近づき、20秒間止まらず読み上げてください。保存済みの声紋は変更していません。",
                ),
            );
            return (false, Ghost(t));
        }
        let consistency: Binary32 = enrollment_consistency(pool.anchors());
        if consistency.less(Binary32 { bits: MIN_ENROLLMENT_CONSISTENCY }) {
            let found: String = number(consistency, 2);
            let wanted: String = number(Binary32 { bits: MIN_ENROLLMENT_CONSISTENCY }, 2);
            proof {
                t = EnrollReplies { consistency: found@, wanted: wanted@, ..t };
                assert(number.ensures((consistency, 2u32), found));
                assert(number.ensures(
                    ((Binary32 { bits: MIN_ENROLLMENT_CONSISTENCY }), 2u32),
                    wanted,
                ));
            }
            let head: String = text::enclosed(
                "声の特徴が安定していません（一貫度 ",
                found.as_str(),
                "、必要値 ",
            );
            self.fail(
                text::enclosed(
                    head.as_str(),
                    wanted.as_str(),
                    "）。スピーカー音を止め、マイクから15〜25cm離れて同じ声量で読み直してください。保存済みの声紋は変更していません。",
                ),
            );
            return (false, Ghost(t));
        }
        let with_separator: bool = separating();
        proof {
            t = EnrollReplies { separating: with_separator, ..t };
        }
        let mut companion: Option<EmbeddingPool> = None;
        if with_separator {
            let found: Result<(), String> = embedder();
            proof {
                t = EnrollReplies { embedder: found, ..t };
            }
            if let Err(e) = found {
                self.fail(
                    text::joined("分離後の声紋登録用ECAPAを読み込めません: ", e.as_str()),
                );
                return (false, Ghost(t));
            }
            let calibrated: Result<EmbeddingPool, String> = calibrate(&pool, audio_48k);
            proof {
                t = EnrollReplies { calibrated, ..t };
                assert(calibrate.ensures((&pool, audio_48k), calibrated));
                assert(companion_asked(calibrate, pool@, audio_48k@, calibrated));
                assert(reply_valid(calibrated));
            }
            match calibrated {
                Ok(p) => {
                    companion = Some(p);
                },
                Err(e) => {
                    self.fail(
                        text::enclosed(
                            "分離後の本人声紋を登録できませんでした: ",
                            e.as_str(),
                            "。保存済みの声紋は変更していません。",
                        ),
                    );
                    return (false, Ghost(t));
                },
            }
        }
        if appending {
            self.append_enrollment(pool, companion, origin);
        } else {
            self.separator_pool = companion;
            self.store_pool(pool, origin);
        }
        (true, Ghost(t))
    }
}

/// What the outside answered when a profile was saved. What was not asked may
/// be anything.
pub struct SaveReplies {
    /// Where the profile goes.
    pub path: Option<PathBuf>,
    /// Where its companion goes.
    pub companion_path: Option<PathBuf>,
    /// Whether the directory is there.
    pub prepared: Result<(), String>,
    pub saved: Result<(), PersistenceError>,
    pub companion_saved: Result<(), PersistenceError>,
}

/// What the user is told after the profile was saved; `None` where there is
/// nothing to tell.
pub open spec fn save_complaint(
    pool: Option<PoolModel>,
    companion: Option<PoolModel>,
    t: SaveReplies,
) -> Option<Seq<char>> {
    if pool is None || t.path is None {
        None
    } else if let Err(e) = t.prepared {
        Some("create config dir: "@ + e@)
    } else if let Err(e) = t.saved {
        Some("auto-save enrollment: "@ + e.text())
    } else if companion is None || t.companion_path is None {
        None
    } else if let Err(e) = t.companion_saved {
        Some("分離後の声紋を保存できません: "@ + e.text())
    } else {
        None
    }
}

/// `save` may answer `reply` when it is asked to write the profile to `path`.
pub open spec fn write_asked<
    W: Fn(&EmbeddingPool, &PathBuf) -> Result<(), PersistenceError>,
>(save: &W, pool: PoolModel, path: PathBuf, reply: Result<(), PersistenceError>) -> bool {
    exists|p: &EmbeddingPool, f: &PathBuf|
        p@ == pool && *f == path && #[trigger] save.ensures((p, f), reply)
}

/// The replies are such that the outside may have given them, each asked only
/// where everything before it went well.
pub open spec fn save_asked<K, W>(
    prepare: &K,
    save: &W,
    pool: Option<PoolModel>,
    companion: Option<PoolModel>,
    t: SaveReplies,
) -> bool where
    K: Fn(&PathBuf) -> Result<(), String>,
    W: Fn(&EmbeddingPool, &PathBuf) -> Result<(), PersistenceError>,
 {
    pool matches Some(own) ==> (t.path matches Some(path) ==> {
        &&& prepare.ensures((&path,), t.prepared)
        &&& t.prepared is Ok ==> {
            &&& write_asked(save, own, path, t.saved)
            &&& t.saved is Ok ==> (companion matches Some(other) ==> (t.companion_path matches Some(
                place,
            ) ==> write_asked(save, other, place, t.companion_saved)))
        }
    })
}

/// The state once a profile was saved: all that changes is what the user is
/// told.
pub open spec fn after_saving(m: ProfileModel, t: SaveReplies) -> ProfileModel {
    match save_complaint(m.pool, m.separator_pool, t) {
        Some(message) => state::failed(m, message),
        None => m,
    }
}

/// Saves a profile and its companion, and returns what the user is told, with
/// the replies.
fn try_saving<K, W>(
    pool: &Option<EmbeddingPool>,
    companion: &Option<EmbeddingPool>,
    path: Option<PathBuf>,
    companion_path: Option<PathBuf>,
    prepare: &K,
    save: &W,
) -> (r: (Option<String>, Ghost<SaveReplies>)) where
    K: Fn(&PathBuf) -> Result<(), String>,
    W: Fn(&EmbeddingPool, &PathBuf) -> Result<(), PersistenceError>,

    requires
        state::optional_valid(*pool),
        state::optional_valid(*companion),
        path matches Some(f) ==> prepare.requires((&f,)),
        forall|p: &EmbeddingPool, f: &PathBuf|
            p.valid() && (Some(*f) == path || Some(*f) == companion_path)
                ==> #[trigger] save.requires((p, f)),
    ensures
        r.1@.path == path,
        r.1@.companion_path == companion_path,
        save_asked(
            prepare,
            save,
            state::optional_pool(*pool),
            state::optional_pool(*companion),
            r.1@,
        ),
        match save_complaint(
            state::optional_pool(*pool),
            state::optional_pool(*companion),
            r.1@,
        ) {
            Some(message) => r.0 matches Some(s) && s@ == message,
            None => r.0 is None,
        },
{
    let ghost mut t: SaveReplies = arbitrary();
    proof {
        t = SaveReplies { path, companion_path, ..t };
    }
    let (own, place): (&EmbeddingPool, PathBuf) = match (pool, path) {
        (Some(own), Some(place)) => (own, place),
        _ => {
            return (None, Ghost(t));
        },
    };
    let prepared: Result<(), String> = prepare(&place);
    proof {
        t = SaveReplies { prepared, ..t };
    }
    if let Err(e) = prepared {
        return (Some(text::joined("create config dir: ", e.as_str())), Ghost(t));
    }
    let saved: Result<(), PersistenceError> = save(own, &place);
    proof {
        t = SaveReplies { saved, ..t };
        assert(save.ensures((own, &place), saved));
        assert(write_asked(save, own@, place, saved));
    }
    if let Err(e) = saved {
        return (Some(text::joined("auto-save enrollment: ", e.message().as_str())), Ghost(t));
    }
    let (other, place): (&EmbeddingPool, PathBuf) = match (companion, companion_path) {
        (Some(other), Some(place)) => (other, place),
        _ => {
            return (None, Ghost(t));
        },
    };
    let kept: Result<(), PersistenceError> = save(other, &place);
    proof {
        t = SaveReplies { companion_saved: kept, ..t };
        assert(save.ensures((other, &place), kept));
        assert(write_asked(save, other@, place, kept));
    }
    match kept {
        Err(e) => (
            Some(text::joined("分離後の声紋を保存できません: ", e.message().as_str())),
            Ghost(t),
        ),
        Ok(_) => (None, Ghost(t)),
    }
}

impl AppState {
    /// Saves the profile to `path` and its companion to `companion_path`, as far
    /// as there are any. `prepare` makes sure of the directory that the profile
    /// goes to, and `save` writes a profile. What fails first is what the user is
    /// told.
    pub fn save_enrollment_at<K, W>(
        &mut self,
        path: Option<PathBuf>,
        companion_path: Option<PathBuf>,
        prepare: &K,
        save: &W,
    ) where
        K: Fn(&PathBuf) -> Result<(), String>,
        W: Fn(&EmbeddingPool, &PathBuf) -> Result<(), PersistenceError>,

        requires
            old(self).valid(),
            path matches Some(f) ==> prepare.requires((&f,)),
            forall|p: &EmbeddingPool, f: &PathBuf|
                p.valid() && (Some(*f) == path || Some(*f) == companion_path)
                    ==> #[trigger] save.requires((p, f)),
        ensures
            final(self).valid(),
            final(self).choices() == old(self).choices(),
            exists|t: SaveReplies|
                t.path == path && t.companion_path == companion_path && #[trigger] save_asked(
                    prepare,
                    save,
                    old(self).profile().pool,
                    old(self).profile().separator_pool,
                    t,
                ) && final(self).profile() == after_saving(old(self).profile(), t),
    {
        let (complaint, Ghost(t)) = try_saving(
            &self.pool,
            &self.separator_pool,
            path,
            companion_path,
            prepare,
            save,
        );
        if let Some(message) = complaint {
            self.fail(message);
        }
    }

    /// Saves the profile and its companion where the next launch loads them.
    /// Does nothing where there is no profile or no configuration directory.
    pub fn persist_enrollment_to_default_path<K, W>(&mut self, prepare: &K, save: &W) where
        K: Fn(&PathBuf) -> Result<(), String>,
        W: Fn(&EmbeddingPool, &PathBuf) -> Result<(), PersistenceError>,

        requires
            old(self).valid(),
            forall|f: &PathBuf| prepare.requires((f,)),
            forall|p: &EmbeddingPool, f: &PathBuf| p.valid() ==> #[trigger] save.requires((p, f)),
        ensures
            final(self).valid(),
            final(self).choices() == old(self).choices(),
            exists|t: SaveReplies|
                paths::is_own_file(t.path, "enrollment.json"@) && paths::is_own_file(
                    t.companion_path,
                    "enrollment-separator.json"@,
                ) && #[trigger] save_asked(
                    prepare,
                    save,
                    old(self).profile().pool,
                    old(self).profile().separator_pool,
                    t,
                ) && final(self).profile() == after_saving(old(self).profile(), t),
    {
        let path: Option<PathBuf> = paths::default_enrollment_path();
        let companion_path: Option<PathBuf> = paths::default_separator_enrollment_path();
        self.save_enrollment_at(path, companion_path, prepare, save);
    }
}

/// Whatever refuses a recording leaves the profile and its companion as they
/// were, says so, and takes the wish to extend the profile with it.
pub proof fn law_refused_recordings_keep_the_profile(
    m: ProfileModel,
    origin: EnrollmentOrigin,
    t: EnrollReplies,
)
    ensures
        ({
            let (after, is_stored) = enroll_outcome(m, origin, t);
            &&& !after.pending_append
            &&& !is_stored ==> {
                &&& after.pool == m.pool
                &&& after.separator_pool == m.separator_pool
                &&& after.origin == m.origin
                &&& after.anchors == m.anchors
                &&& after.f0_mu == m.f0_mu
                &&& after.f0_sigma == m.f0_sigma
                &&& after.quality == m.quality
                &&& after.last_error is Some
            }
        }),
{
}

/// A profile is stored only from a recording that was good enough, gave enough
/// anchors and anchors that resemble each other.
pub proof fn law_stored_profiles_are_sound(
    m: ProfileModel,
    origin: EnrollmentOrigin,
    t: EnrollReplies,
)
    requires
        enroll_outcome(m, origin, t).1,
    ensures
        t.verdict is Ok,
        t.enrolled matches Ok(pool) && pool@.anchors.len() >= MIN_ENROLLMENT_ANCHORS
            && !inconsistent(pool@.anchors),
        enroll_outcome(m, origin, t).0.pool is Some,
        enroll_outcome(m, origin, t).0.last_error is None,
{
}

/// Extending a profile keeps every registration that it holds and adds every
/// new one; without one it stores the new profile as it is.
pub proof fn law_extending_keeps_registrations(
    m: ProfileModel,
    new: PoolModel,
    companion: Option<PoolModel>,
    origin: EnrollmentOrigin,
)
    ensures
        m.pool is None ==> stored(m, true, new, companion, origin) == stored(
            m,
            false,
            new,
            companion,
            origin,
        ),
        m.pool matches Some(saved) ==> ({
            let pool = stored(m, true, new, companion, origin).pool->0;
            &&& pool.anchors.take(saved.anchors.len() as int) == saved.anchors
            &&& pool.anchors.skip(saved.anchors.len() as int) == new.anchors
        }),
        m.separator_pool matches Some(c) ==> (m.pool is Some ==> ({
            let after = stored(m, true, new, companion, origin).separator_pool;
            after is Some && after->0.anchors.take(c.anchors.len() as int) == c.anchors
        })),
{
    if m.pool is Some {
        let saved = m.pool->0;
        let pool = stored(m, true, new, companion, origin).pool->0;
        assert(pool.anchors == saved.anchors + new.anchors);
        assert(pool.anchors.take(saved.anchors.len() as int) =~= saved.anchors);
        assert(pool.anchors.skip(saved.anchors.len() as int) =~= new.anchors);
        if m.separator_pool is Some {
            let c = m.separator_pool->0;
            let after = stored(m, true, new, companion, origin).separator_pool->0;
            assert(after.anchors.take(c.anchors.len() as int) =~= c.anchors);
        }
    }
}

/// It does not matter which of two recordings came first: their pitch together
/// is the same.
pub proof fn law_joint_pitch_is_symmetric(
    n: nat,
    a: EnrollmentMetadata,
    m: nat,
    b: EnrollmentMetadata,
)
    ensures
        joint_pitch(n, a, m, b) == joint_pitch(m, b, n, a),
{
    let x = Binary32::whole(n);
    let y = Binary32::whole(m);
    lemma_terms_change_places(x, y);
    lemma_terms_change_places(x.product(a.f0_mu), y.product(b.f0_mu));
    lemma_terms_change_places(x.product(mean_square(a)), y.product(mean_square(b)));
}

/// Terms can change places.
proof fn lemma_terms_change_places(a: Binary32, b: Binary32)
    ensures
        a.sum(b) == b.sum(a),
{
    reveal(Binary32::sum);
    let f = crate::binary32::format();
    if a.parts().infinite(f) && b.parts().infinite(f) {
        crate::binary32::lemma_parts(a);
        crate::binary32::lemma_parts(b);
    }
}

/// A recording without anchors has no weight: the pitch of both is that of the
/// other.
pub proof fn law_pitch_follows_the_anchors(a: Binary32, b: Binary32)
    requires
        a.finite() && b.finite(),
    ensures
        joint_mean(1, a, 0, b).finite() && joint_mean(1, a, 0, b).units() == a.units(),
        joint_mean(0, b, 1, a).finite() && joint_mean(0, b, 1, a).units() == a.units(),
{
    let f = crate::binary32::format();
    let one = Binary32 { bits: 0x3f80_0000 };
    let w = Binary32::whole(1);
    let z = Binary32::whole(0);
    crate::binary32::lemma_format();
    crate::binary32::lemma_one();
    let d = vstd::arithmetic::power2::pow2(149);
    vstd::arithmetic::power2::lemma_pow2_pos(149);
    assert(w == one) by {
        reveal(Binary32::whole);
        crate::rounding::lemma_representable(f.h(), f.inf(), 0x3f80_0000, 1);
        assert(1 * d == d);
    }
    assert(z.parts().pattern == 0) by {
        reveal(Binary32::whole);
        crate::binary::lemma_zero(f, 1);
        assert(0 * d == 0);
    }
    lemma_terms_change_places(w, z);
    let total = w.sum(z);
    crate::binary32::lemma_plus_zero(z, w);
    assert(total == one) by {
        reveal(Binary32::sum);
        crate::binary::lemma_order(f, 0x3f80_0000, 0);
        crate::rounding::lemma_representable(f.h(), f.inf(), 0x3f80_0000, 1);
        assert(z.parts().units(f) == 0);
        crate::binary32::lemma_parts(one);
    }
    crate::binary32::lemma_product_symmetric(w, a);
    crate::binary32::lemma_times_one(a);
    let none = z.product(b);
    crate::binary32::lemma_times_zero(z, b);
    crate::binary32::lemma_plus_zero(none, a);
    lemma_terms_change_places(a, none);
    let s = a.sum(none);
    let p = s.parts();
    assert(s.quotient(one) == s || p.pattern == 0) by {
        reveal(Binary32::quotient);
        crate::rounding::lemma_representable(f.h(), f.inf(), p.pattern as nat, d);
        crate::binary32::lemma_parts(s);
    }
    if p.pattern == 0 {
        reveal(Binary32::quotient);
        crate::binary::lemma_zero(f, d);
        crate::binary::lemma_order(f, 0, 0);
        assert(p.magnitude(f) == 0);
        assert(0 * d == 0);
    }
}

/// Extending a profile changes its anchors and its pitch, and nothing else of
/// it.
pub proof fn law_extending_keeps_the_rest(saved: PoolModel, new: PoolModel)
    ensures
        extended(saved, new).config == saved.config,
        extended(saved, new).evidence == saved.evidence,
        extended(saved, new).anchors.len() == saved.anchors.len() + new.anchors.len(),
{
}

/// No registration is lost from the companion of an extended profile: it holds
/// all that it held and all that is new. Where there was none, the saved
/// profile's own anchors stand in for it; without a new one it stays as it was.
pub proof fn law_companions_hold_every_registration(
    saved: PoolModel,
    companion: Option<PoolModel>,
    new: Option<PoolModel>,
    x: Seq<Binary32>,
)
    ensures
        ({
            let after = extended_companion(saved, companion, new);
            &&& after is None <==> companion is None && new is None
            &&& new is None ==> after == companion
            &&& companion matches Some(c) ==> {
                &&& after->0.config == c.config && after->0.evidence == c.evidence
                &&& after->0.metadata == c.metadata
                &&& c.anchors.contains(x) ==> after->0.anchors.contains(x)
            }
            &&& new matches Some(n) ==> {
                &&& n.anchors.contains(x) ==> after->0.anchors.contains(x)
                &&& companion is None ==> {
                    &&& saved.anchors.contains(x) ==> after->0.anchors.contains(x)
                    &&& after->0.anchors.len() == n.anchors.len() + saved.anchors.len()
                    &&& after->0.metadata == n.metadata
                }
            }
        }),
{
    if let Some(n) = new {
        let other = match companion {
            Some(c) => c.anchors,
            None => saved.anchors,
        };
        let after = extended_companion(saved, companion, new)->0.anchors;
        let (first, second) = if companion is Some {
            (other, n.anchors)
        } else {
            (n.anchors, other)
        };
        assert(after == first + second);
        if first.contains(x) {
            let i = choose|i: int| 0 <= i < first.len() && first[i] == x;
            assert(after[i] == x);
        }
        if second.contains(x) {
            let i = choose|i: int| 0 <= i < second.len() && second[i] == x;
            assert(after[first.len() + i] == x);
        }
    }
}

/// Without the wish to extend it, a recording takes the place of the profile
/// and of its companion: nothing of either is left.
pub proof fn law_replacing_leaves_nothing_behind(
    m: ProfileModel,
    other: ProfileModel,
    new: PoolModel,
    companion: Option<PoolModel>,
    origin: EnrollmentOrigin,
)
    ensures
        ({
            let after = stored(m, false, new, companion, origin);
            &&& after.pool == Some(new)
            &&& after.separator_pool == companion
            &&& after.origin == origin
            &&& after.pool == stored(other, false, new, companion, origin).pool
            &&& after.recording == m.recording && after.running == m.running
        }),
{
}

/// A sound recording is stored: nothing but its own checks can refuse it. Six
/// anchors and a consistency of 0.40 are enough, and the separator asks for a
/// companion only where it is there.
pub proof fn law_sound_recordings_are_stored(
    m: ProfileModel,
    origin: EnrollmentOrigin,
    t: EnrollReplies,
)
    requires
        t.verdict is Ok && t.resampled is Ok && t.built is Ok,
        t.enrolled matches Ok(pool) && pool@.anchors.len() >= 6 && (Binary32 {
            bits: 0x3ecc_cccd,
        }).le(capture::consistency(pool@.anchors)),
        t.separating ==> t.embedder is Ok && t.calibrated is Ok,
    ensures
        ({
            let (after, is_stored) = enroll_outcome(m, origin, t);
            let pool = t.enrolled->Ok_0@;
            &&& is_stored
            &&& after.origin == origin
            &&& after.last_error is None
            &&& after.pool matches Some(p) && (if m.pending_append && m.pool is Some {
                p.anchors == m.pool->0.anchors + pool.anchors
            } else {
                p == pool
            })
            &&& !(m.pending_append && m.pool is Some) ==> (if t.separating {
                after.separator_pool == Some(t.calibrated->Ok_0@)
            } else {
                after.separator_pool is None
            })
        }),
{
    let c = capture::consistency(t.enrolled->Ok_0@.anchors);
    let least = Binary32 { bits: 0x3ecc_cccd };
    assert(!c.nan() && !least.nan()) by {
        reveal(Binary32::le);
    }
    crate::binary32::lemma_total(c, least, least);
}

/// A recording with fewer than six anchors, or with anchors that resemble each
/// other less than 0.40, is refused, whatever else is right with it.
pub proof fn law_thin_recordings_are_refused(
    m: ProfileModel,
    origin: EnrollmentOrigin,
    t: EnrollReplies,
)
    requires
        t.enrolled matches Ok(pool) && (pool@.anchors.len() < 6 || capture::consistency(
            pool@.anchors,
        ).lt(Binary32 { bits: 0x3ecc_cccd })) || t.separating && (t.embedder is Err
            || t.calibrated is Err) || t.resampled is Err || t.built is Err || t.enrolled is Err,
    ensures
        !enroll_outcome(m, origin, t).1,
{
}

/// The user is told of a failure to save exactly where something that had to be
/// written was not, and saving never changes what is enrolled.
pub proof fn law_failed_saves_are_reported(m: ProfileModel, t: SaveReplies)
    ensures
        ({
            let wanted = m.pool is Some && t.path is Some;
            let both = m.separator_pool is Some && t.companion_path is Some;
            let well = t.prepared is Ok && t.saved is Ok && (both ==> t.companion_saved is Ok);
            let after = after_saving(m, t);
            &&& !wanted || well ==> after == m
            &&& wanted && !well ==> after.last_error is Some
            &&& after.pool == m.pool && after.separator_pool == m.separator_pool
            &&& after.origin == m.origin && after.anchors == m.anchors
        }),
{
}

/// The pitch of an extended profile counts every anchor: a recording without
/// any leaves the other's pitch as it was.
pub proof fn law_extended_pitch_follows_the_anchors(saved: PoolModel, new: PoolModel)
    requires
        saved.metadata.f0_mu.finite() && new.metadata.f0_mu.finite(),
    ensures
        saved.anchors.len() == 1 && new.anchors.len() == 0 ==> extended(
            saved,
            new,
        ).metadata.f0_mu.units() == saved.metadata.f0_mu.units(),
        saved.anchors.len() == 0 && new.anchors.len() == 1 ==> extended(
            saved,
            new,
        ).metadata.f0_mu.units() == new.metadata.f0_mu.units(),
{
    law_pitch_follows_the_anchors(saved.metadata.f0_mu, new.metadata.f0_mu);
    law_pitch_follows_the_anchors(new.metadata.f0_mu, saved.metadata.f0_mu);
}

/// The spread of a pitch is a number and not below zero, however two recordings
/// differ.
pub proof fn law_pitch_spread_is_never_negative(
    n: nat,
    a: EnrollmentMetadata,
    m: nat,
    b: EnrollmentMetadata,
)
    ensures
        !joint_pitch(n, a, m, b).f0_sigma.nan(),
        joint_pitch(n, a, m, b).f0_sigma.units() >= 0,
{
    let f = crate::binary32::format();
    crate::binary32::lemma_format();
    let mu = joint_mean(n, a.f0_mu, m, b.f0_mu);
    let variance = joint_mean(n, mean_square(a), m, mean_square(b)).difference(mu.product(mu));
    let v = variance.larger(vectors::zero());
    crate::binary::lemma_order(f, 0, 0);
    assert(!v.nan() && (v.parts().pattern == 0 || !v.parts().negative)) by {
        reveal(Binary32::lt);
        crate::binary::lemma_order(f, v.parts().pattern, 0);
    }
    let p = crate::binary::root(f, v.parts());
    if v.finite() && v.parts().pattern > 0 {
        crate::binary::lemma_root_bound(f, v.parts(), 0);
    }
    assert(v.root().parts() == p) by {
        reveal(Binary32::root);
        assert(Binary32::of(p).parts() == p);
    }
}

/// Where there is no pitch, the spread of two recordings, of which one has no
/// anchors, is the other's, as far as that is a power of two.
pub proof fn law_pitch_spread_is_kept(sigma: Binary32, b: EnrollmentMetadata, e: nat)
    requires
        64 <= e <= 187,
        sigma.bits == e * 0x80_0000,
        mean_square(b).finite() && b.f0_mu.finite(),
    ensures
        joint_pitch(
            1,
            (EnrollmentMetadata { f0_mu: vectors::zero(), f0_sigma: sigma }),
            0,
            b,
        ).f0_sigma.units() == sigma.units(),
{
    let f = crate::binary32::format();
    crate::binary32::lemma_format();
    let zero = vectors::zero();
    let a = EnrollmentMetadata { f0_mu: zero, f0_sigma: sigma };
    crate::binary::lemma_order(f, 0, 0);
    let h = 0x80_0000nat;
    let s = (e - 1) as nat;
    let u = vstd::arithmetic::power2::pow2(149);
    let m = vstd::arithmetic::power2::pow2(s + 23);
    vstd::arithmetic::power2::lemma_pow2_pos(149);
    vstd::arithmetic::power2::lemma2_to64();
    vstd::arithmetic::power2::lemma_pow2_adds(23, s);
    crate::rounding::lemma_mag_parts(h, s, h);
    assert(s * h + h == e * 0x80_0000);
    let q = sigma.parts();
    assert(!q.negative && q.pattern == e * 0x80_0000 && q.magnitude(f) == m);
    // The square, exact: a power of two again.
    let t = (2 * e - 128) as nat;
    let k = (t * h + h) as nat;
    crate::rounding::lemma_mag_parts(h, t, h);
    let w = vstd::arithmetic::power2::pow2(t + 23);
    vstd::arithmetic::power2::lemma_pow2_adds(23, t);
    vstd::arithmetic::power2::lemma_pow2_adds(s + 23, s + 23);
    vstd::arithmetic::power2::lemma_pow2_adds(t + 23, 149);
    assert(m * m == w * u);
    crate::rounding::lemma_representable(f.h(), f.inf(), k, u);
    let square = sigma.product(sigma);
    assert(square.parts() == crate::binary::Parts { negative: false, pattern: k as u64 }) by {
        reveal(Binary32::product);
        let p = crate::binary::product(f, q, q);
        assert(Binary32::of(p).parts() == p);
    }
    crate::binary32::lemma_times_zero(zero, zero);
    let none = zero.product(zero);
    crate::binary32::lemma_plus_zero(none, square);
    let x = mean_square(a);
    assert(x.units() == square.units());
    law_pitch_follows_the_anchors(x, mean_square(b));
    law_pitch_follows_the_anchors(zero, b.f0_mu);
    let mu = joint_mean(1, zero, 0, b.f0_mu);
    let y = joint_mean(1, x, 0, mean_square(b));
    assert(mu.parts().pattern == 0) by {
        crate::binary::lemma_order(f, mu.parts().pattern, 0);
    }
    crate::binary32::lemma_times_zero(mu, mu);
    let less = mu.product(mu).negation();
    assert(less.parts().pattern == 0) by {
        reveal(Binary32::negation);
    }
    crate::binary32::lemma_plus_zero(less, y);
    let variance = y.difference(mu.product(mu));
    assert(variance.units() == w);
    crate::binary::lemma_order(f, variance.parts().pattern, k as u64);
    crate::binary::lemma_order(f, k as u64, variance.parts().pattern);
    crate::binary::lemma_order(f, k as u64, 0);
    assert(variance.parts() == square.parts());
    let v = variance.larger(zero);
    assert(v == variance) by {
        reveal(Binary32::lt);
    }
    crate::binary::lemma_root_bound(f, v.parts(), q.pattern);
    let p = crate::binary::root(f, v.parts());
    assert(p.pattern == q.pattern);
    assert(v.root().parts() == p) by {
        reveal(Binary32::root);
        assert(Binary32::of(p).parts() == p);
    }
}

/// An explanation quotes the figure that was measured: levels and shares of
/// speech as whole numbers, shares of clipped samples with two decimals.
pub proof fn law_explanations_quote_the_figure(x: Binary32)
    ensures
        figure(CaptureFault::TooQuiet { rms_dbfs: x }) == Some((x, 0u32)),
        figure(CaptureFault::Clipped { percent: x }) == Some((x, 2u32)),
        figure(CaptureFault::TooLittleSpeech { percent: x }) == Some((x, 0u32)),
        figure(CaptureFault::Broken) is None,
        figure(CaptureFault::DcOffset) is None,
{
}

/// The profile is made of the recording at the rate of the identity decision,
/// within full scale, and its companion of the recording itself.
pub proof fn law_models_hear_the_recording<D, N, V, B, E, S, M, C>(
    decibels: &D,
    number: &N,
    convert: &V,
    build: B,
    enroll: E,
    separating: S,
    embedder: M,
    calibrate: C,
    audio: Seq<Binary32>,
    t: EnrollReplies,
) where
    D: Fn(Binary32) -> Binary32,
    N: Fn(Binary32, u32) -> String,
    V: Fn(&[Binary32], u32, u32) -> Result<Vec<Binary32>, String>,
    B: FnOnce() -> Result<(), String>,
    E: FnOnce(&[Binary32]) -> Result<EmbeddingPool, String>,
    S: FnOnce() -> bool,
    M: FnOnce() -> Result<(), String>,
    C: FnOnce(&EmbeddingPool, &[Binary32]) -> Result<EmbeddingPool, String>,

    requires
        enroll_asked(
            decibels,
            number,
            convert,
            build,
            enroll,
            separating,
            embedder,
            calibrate,
            audio,
            t,
        ),
        t.verdict is Ok && t.resampled is Ok && t.built is Ok,
    ensures
        exists|a: &[Binary32], heard: &[Binary32]|
            a@ == audio && convert.ensures((a, 48_000u32, 16_000u32), t.resampled)
                && heard@.len() == t.resampled->Ok_0@.len() && (forall|i: int|
                0 <= i < heard@.len() ==> (#[trigger] heard@[i]).nan() || (Binary32 {
                    bits: 0xbf80_0000,
                }).le(heard@[i]) && heard@[i].le(Binary32 { bits: 0x3f80_0000 })) && #[trigger]
            enroll.ensures((heard,), t.enrolled) && #[trigger] a@.len() == audio.len(),
        t.enrolled is Ok && t.enrolled->Ok_0@.anchors.len() >= 6 && !inconsistent(
            t.enrolled->Ok_0@.anchors,
        ) && t.separating && t.embedder is Ok ==> exists|p: &EmbeddingPool, a: &[Binary32]|
            p@ == t.enrolled->Ok_0@ && a@ == audio && #[trigger] calibrate.ensures(
                (p, a),
                t.calibrated,
            ),
{
    let a = choose|a: &[Binary32]|
        a@ == audio && #[trigger] convert.ensures((a, 48_000u32, 16_000u32), t.resampled);
    let c = t.resampled->Ok_0@;
    let heard = choose|heard: &[Binary32]|
        heard@ == resample::limited(c) && #[trigger] enroll.ensures((heard,), t.enrolled);
    assert forall|i: int| 0 <= i < heard@.len() implies (#[trigger] heard@[i]).nan() || (Binary32 {
        bits: 0xbf80_0000,
    }).le(heard@[i]) && heard@[i].le(Binary32 { bits: 0x3f80_0000 }) by {
        crate::audio::lemma_within_full_scale(c[i]);
    }
    assert(a@.len() == audio.len());
}

} // verus!
