//! Opening, watching and closing a live session, and the controls that stay.

use crate::binary32::Binary32;
use crate::decimals;
use crate::enrollment::EmbeddingPool;
use crate::enrollment::PoolModel;
use crate::gating::GateConfig;
use crate::paths;
use crate::pipeline::PipelineConfig;
use crate::pipeline::StreamingConfig;
use crate::recording;
use crate::session;
use crate::session::ChannelStrategy;
use crate::session::OpenFailure;
use crate::session::SessionConfig;
use crate::session::TuningModel;
use crate::settings;
use crate::settings::write_settings;
use crate::state;
use crate::state::AppState;
use crate::state::ChoiceModel;
use crate::state::ProfileModel;
use crate::state::OUTPUT_SAMPLE_RATE;
use crate::text;
use crate::worker::LiveSessionStats;
use crate::worker::SessionEvent;
use std::path::PathBuf;
use vstd::arithmetic::power2::pow2;
use vstd::prelude::*;
use vstd::string::StringExecFns;

verus! {

/// Bits of `1.0`, `750.0` and `1250.0`: the extracted voice alone during
/// overlap, and the three decisions that it takes to believe in it and five to
/// believe that it is over.
pub const OVERLAP_WET_DRY_ALPHA: u32 = 0x3f80_0000;

pub const OVERLAP_HOLD_ON_MS: u32 = 0x443b_8000;

pub const OVERLAP_HOLD_OFF_MS: u32 = 0x449c_4000;

/// What the outside answered on the way to a session. What was not asked may
/// be anything.
pub struct StartReplies {
    /// Whether the models could be loaded.
    pub built: Result<(), String>,
    /// Noise suppressor, separator and overlap detector, where they are there.
    pub dfn3: Option<PathBuf>,
    pub sepformer: Option<PathBuf>,
    /// Embedding model for the separated streams.
    pub ecapa: Result<PathBuf, String>,
    pub overlap: Option<PathBuf>,
    /// Extractor to use where none was chosen.
    pub tse: Option<PathBuf>,
    /// Whether the extractor's file is there, and the text of its path.
    pub tse_exists: bool,
    pub tse_shown: Seq<char>,
    /// Whether the session could be opened.
    pub opened: Result<(), OpenFailure>,
}

/// The message about a profile from before the separator was calibrated.
pub open spec fn no_companion_message() -> Seq<char> {
    "強力2話者分離を使うには、新しい20秒方式で声紋を再登録してください。"@
}

/// The extractor after it was looked for.
pub open spec fn resolved_tse(c: ChoiceModel, t: StartReplies) -> Option<PathBuf> {
    if t.sepformer is None && c.tse is None {
        t.tse
    } else {
        c.tse
    }
}

/// Something is missing that the separator needs: the companion profile, or
/// the embedding model.
pub open spec fn separator_complaint(companion: Option<PoolModel>, t: StartReplies) -> Option<
    Seq<char>,
> {
    if t.sepformer is None {
        None
    } else if companion is None {
        Some(no_companion_message())
    } else {
        match t.ecapa {
            Err(e) => Some("2話者分離用のECAPA ONNXを読み込めません: "@ + e@),
            Ok(_) => None,
        }
    }
}

/// The extractor is to run, and its file is gone.
pub open spec fn tse_gone(c: ChoiceModel, t: StartReplies) -> bool {
    t.sepformer is None && resolved_tse(c, t) is Some && !t.tse_exists
}

/// The live controls are started over: the separator does not use them, and
/// what could not be opened may have failed before or after that.
pub open spec fn controls_reset(t: StartReplies) -> bool {
    t.sepformer is None && match t.opened {
        Ok(_) => true,
        Err(e) => e.controls_reset,
    }
}

/// What comes of an attempt to open a session.
pub open spec fn start_outcome(m: ProfileModel, c: ChoiceModel, t: StartReplies) -> (
    ProfileModel,
    ChoiceModel,
) {
    if m.running {
        (m, c)
    } else if m.pool is None {
        (state::failed(m, "enrol a voice first"@), c)
    } else if let Err(e) = t.built {
        (state::failed(m, e@), c)
    } else if let Some(complaint) = separator_complaint(m.separator_pool, t) {
        (state::failed(m, complaint), c)
    } else {
        let after = ChoiceModel { tse: resolved_tse(c, t), ..c };
        if tse_gone(c, t) {
            (state::failed(m, "TSE ONNX path does not exist: "@ + t.tse_shown), after)
        } else {
            let tried = ChoiceModel {
                gate_tuning: if controls_reset(t) {
                    session::at_start(c.gate_tuning)
                } else {
                    c.gate_tuning
                },
                ..after
            };
            match t.opened {
                Ok(_) => (ProfileModel { running: true, last_error: None, ..m }, tried),
                Err(e) => (state::failed(m, "open live session: "@ + e.message@), tried),
            }
        }
    }
}

/// The speaker gate of a session. The separator already fails closed by its own
/// voiceprint, so behind it the ordinary stage does not reject a second time.
pub open spec fn session_gate(c: ChoiceModel, t: StartReplies) -> GateConfig {
    if t.sepformer is Some {
        GateConfig {
            theta_pass: Binary32 { bits: 0 },
            adaptive_theta: false,
            ..c.gate_cfg
        }
    } else {
        c.gate_cfg
    }
}

/// The engine of a session. The separator takes the place of the extractor and
/// its router.
pub open spec fn session_streaming(c: ChoiceModel, t: StartReplies) -> StreamingConfig {
    StreamingConfig {
        pipeline: PipelineConfig {
            tse: if t.sepformer is Some {
                None
            } else if resolved_tse(c, t) is Some {
                resolved_tse(c, t)
            } else {
                c.pipeline_cfg.tse
            },
            ..c.pipeline_cfg
        },
        gate: session_gate(c, t),
        audio_sample_rate: OUTPUT_SAMPLE_RATE,
        diagnostics: false,
        dfn3_onnx_path: None,
        overlap_onnx_path: None,
        overlap_bypass_speaker_gate: true,
        overlap_wet_dry_alpha: Binary32 { bits: OVERLAP_WET_DRY_ALPHA },
        overlap_hold_on_ms: Binary32 { bits: OVERLAP_HOLD_ON_MS },
        overlap_hold_off_ms: Binary32 { bits: OVERLAP_HOLD_OFF_MS },
    }
}

/// What a session is opened with.
pub open spec fn is_session_config(
    config: SessionConfig,
    companion: Option<PoolModel>,
    c: ChoiceModel,
    t: StartReplies,
) -> bool {
    &&& state::optional_text(config.input_device) == c.selected_input
    &&& state::optional_text(config.output_device) == c.selected_output
    &&& config.streaming == session_streaming(c, t)
    &&& config.dfn3_onnx_path == t.dfn3
    &&& config.overlap_onnx_path == (if t.sepformer is Some {
        None
    } else {
        t.overlap
    })
    &&& config.sepformer_onnx_path == t.sepformer
    &&& config.speaker_embedding_onnx_path == (if t.sepformer is Some {
        Some(t.ecapa->Ok_0)
    } else {
        None
    })
    &&& state::optional_pool(config.speaker_selection_pool) == companion
    &&& state::optional_valid(config.speaker_selection_pool)
    &&& config.separator_tuning == Some(c.separator_tuning)
    &&& match config.gate_tuning {
        Some(g) => t.sepformer is None && g@ == c.gate_tuning,
        None => t.sepformer is Some,
    }
    &&& config.input_channel == ChannelStrategy::Average
}

/// `open` may answer `reply` when it is asked for such a session.
pub open spec fn open_asked<O: FnOnce(EmbeddingPool, SessionConfig) -> Result<(), OpenFailure>>(
    open: O,
    pool: PoolModel,
    companion: Option<PoolModel>,
    c: ChoiceModel,
    t: StartReplies,
) -> bool {
    exists|p: EmbeddingPool, config: SessionConfig|
        p.valid() && p@ == pool && is_session_config(config, companion, c, t)
            && #[trigger] open.ensures((p, config), t.opened)
}

/// `exists` and `shown` may answer so about the extractor's file.
pub open spec fn tse_asked<X, Y>(
    exists_at: X,
    shown: Y,
    path: PathBuf,
    is_there: bool,
    text: Seq<char>,
) -> bool where
    X: FnOnce(&PathBuf) -> bool,
    Y: FnOnce(&PathBuf) -> String,
 {
    &&& exists|p: &PathBuf| *p == path && #[trigger] exists_at.ensures((p,), is_there)
    &&& !is_there ==> exists|p: &PathBuf, s: String|
        *p == path && #[trigger] shown.ensures((p,), s) && s@ == text
}

/// The replies are such that the outside may have given them, each asked only
/// where everything before it went well.
pub open spec fn start_asked<B, D, S, E, V, T, X, Y, O>(
    build: B,
    dfn3: D,
    sepformer: S,
    ecapa: E,
    overlap: V,
    tse: T,
    exists_at: X,
    shown: Y,
    open: O,
    m: ProfileModel,
    c: ChoiceModel,
    t: StartReplies,
) -> bool where
    B: FnOnce() -> Result<(), String>,
    D: FnOnce() -> Option<PathBuf>,
    S: FnOnce() -> Option<PathBuf>,
    E: FnOnce() -> Result<PathBuf, String>,
    V: FnOnce() -> Option<PathBuf>,
    T: FnOnce() -> Option<PathBuf>,
    X: FnOnce(&PathBuf) -> bool,
    Y: FnOnce(&PathBuf) -> String,
    O: FnOnce(EmbeddingPool, SessionConfig) -> Result<(), OpenFailure>,
 {
    !m.running && m.pool is Some ==> {
        &&& build.ensures((), t.built)
        &&& t.built is Ok ==> {
            &&& dfn3.ensures((), t.dfn3)
            &&& sepformer.ensures((), t.sepformer)
            &&& t.sepformer is Some && m.separator_pool is Some ==> ecapa.ensures((), t.ecapa)
            &&& separator_complaint(m.separator_pool, t) is None ==> {
                &&& overlap.ensures((), t.overlap)
                &&& t.sepformer is None && c.tse is None ==> tse.ensures((), t.tse)
                &&& t.sepformer is None ==> (resolved_tse(c, t) matches Some(path) ==> tse_asked(
                    exists_at,
                    shown,
                    path,
                    t.tse_exists,
                    t.tse_shown,
                ))
                &&& !tse_gone(c, t) ==> open_asked(
                    open,
                    m.pool->0,
                    m.separator_pool,
                    c,
                    t,
                )
            }
        }
    }
}

impl AppState {
    /// Opens a session with the current profile. The noise suppressor and the
    /// extractor run whenever their models can be had; the separator, where it
    /// is there, takes the extractor's place. `build` loads the models, the
    /// next five look for one each, `exists_at` and `shown` ask about the
    /// extractor's file, and `open` opens the session.
    pub fn start<B, D, S, E, V, T, X, Y, O>(
        &mut self,
        build: B,
        dfn3: D,
        sepformer: S,
        ecapa: E,
        overlap: V,
        tse: T,
        exists_at: X,
        shown: Y,
        open: O,
    ) where
        B: FnOnce() -> Result<(), String>,
        D: FnOnce() -> Option<PathBuf>,
        S: FnOnce() -> Option<PathBuf>,
        E: FnOnce() -> Result<PathBuf, String>,
        V: FnOnce() -> Option<PathBuf>,
        T: FnOnce() -> Option<PathBuf>,
        X: FnOnce(&PathBuf) -> bool,
        Y: FnOnce(&PathBuf) -> String,
        O: FnOnce(EmbeddingPool, SessionConfig) -> Result<(), OpenFailure>,

        requires
            old(self).valid(),
            build.requires(()),
            dfn3.requires(()),
            sepformer.requires(()),
            ecapa.requires(()),
            overlap.requires(()),
            tse.requires(()),
            forall|p: &PathBuf| exists_at.requires((p,)),
            forall|p: &PathBuf| shown.requires((p,)),
            forall|p: EmbeddingPool, config: SessionConfig|
                p.valid() && state::optional_valid(config.speaker_selection_pool)
                    ==> #[trigger] open.requires((p, config)),
        ensures
            final(self).valid(),
            exists|t: StartReplies| #[trigger]
                start_asked(
                    build,
                    dfn3,
                    sepformer,
                    ecapa,
                    overlap,
                    tse,
                    exists_at,
                    shown,
                    open,
                    old(self).profile(),
                    old(self).choices(),
                    t,
                ) && (final(self).profile(), final(self).choices()) == start_outcome(
                    old(self).profile(),
                    old(self).choices(),
                    t,
                ),
    {
        let _replies: Ghost<StartReplies> = self.try_start(
            build,
            dfn3,
            sepformer,
            ecapa,
            overlap,
            tse,
            exists_at,
            shown,
            open,
        );
    }

    /// [`AppState::start`], with the replies that it got.
    fn try_start<B, D, S, E, V, T, X, Y, O>(
        &mut self,
        build: B,
        dfn3: D,
        sepformer: S,
        ecapa: E,
        overlap: V,
        tse: T,
        exists_at: X,
        shown: Y,
        open: O,
    ) -> (r: Ghost<StartReplies>) where
        B: FnOnce() -> Result<(), String>,
        D: FnOnce() -> Option<PathBuf>,
        S: FnOnce() -> Option<PathBuf>,
        E: FnOnce() -> Result<PathBuf, String>,
        V: FnOnce() -> Option<PathBuf>,
        T: FnOnce() -> Option<PathBuf>,
        X: FnOnce(&PathBuf) -> bool,
        Y: FnOnce(&PathBuf) -> String,
        O: FnOnce(EmbeddingPool, SessionConfig) -> Result<(), OpenFailure>,

        requires
            old(self).valid(),
            build.requires(()),
            dfn3.requires(()),
            sepformer.requires(()),
            ecapa.requires(()),
            overlap.requires(()),
            tse.requires(()),
            forall|p: &PathBuf| exists_at.requires((p,)),
            forall|p: &PathBuf| shown.requires((p,)),
            forall|p: EmbeddingPool, config: SessionConfig|
                p.valid() && state::optional_valid(config.speaker_selection_pool)
                    ==> #[trigger] open.requires((p, config)),
        ensures
            final(self).valid(),
            start_asked(
                build,
                dfn3,
                sepformer,
                ecapa,
                overlap,
                tse,
                exists_at,
                shown,
                open,
                old(self).profile(),
                old(self).choices(),
                r@,
            ),
            (final(self).profile(), final(self).choices()) == start_outcome(
                old(self).profile(),
                old(self).choices(),
                r@,
            ),
    {
        let ghost m = self.profile();
        let ghost c = self.choices();
        let ghost mut t: StartReplies = arbitrary();
        if self.running {
            return Ghost(t);
        }
        let pool: EmbeddingPool = match &self.pool {
            Some(p) => p.clone(),
            None => {
                self.fail(String::from_str("enrol a voice first"));
                return Ghost(t);
            },
        };
        let built: Result<(), String> = build();
        proof {
            t = StartReplies { built, ..t };
        }
        if let Err(e) = built {
            self.fail(e);
            return Ghost(t);
        }
        let dfn3_onnx_path: Option<PathBuf> = dfn3();
        let sepformer_onnx_path: Option<PathBuf> = sepformer();
        proof {
            t = StartReplies { dfn3: dfn3_onnx_path, sepformer: sepformer_onnx_path, ..t };
        }
        let separating: bool = sepformer_onnx_path.is_some();
        if separating && self.separator_pool.is_none() {
            self.fail(
                String::from_str(
                    "強力2話者分離を使うには、新しい20秒方式で声紋を再登録してください。",
                ),
            );
            return Ghost(t);
        }
        let mut speaker_embedding_onnx_path: Option<PathBuf> = None;
        if separating {
            let found: Result<PathBuf, String> = ecapa();
            proof {
                t = StartReplies { ecapa: found, ..t };
            }
            match found {
                Ok(path) => {
                    speaker_embedding_onnx_path = Some(path);
                },
                Err(e) => {
                    self.fail(
                        text::joined(
                            "2話者分離用のECAPA ONNXを読み込めません: ",
                            e.as_str(),
                        ),
                    );
                    return Ghost(t);
                },
            }
        }
        let detector: Option<PathBuf> = overlap();
        proof {
            t = StartReplies { overlap: detector, ..t };
        }
        if !separating && self.tse_onnx_path.is_none() {
            let found: Option<PathBuf> = tse();
            proof {
                t = StartReplies { tse: found, ..t };
            }
            self.tse_onnx_path = found;
        }
        assert(self.tse_onnx_path == resolved_tse(c, t));
        let mut overlap_onnx_path: Option<PathBuf> = detector;
        let mut pipeline_cfg: PipelineConfig = self.pipeline_cfg.clone();
        if separating {
            pipeline_cfg = pipeline_cfg.with_tse(None);
            overlap_onnx_path = None;
        } else if let Some(onnx) = &self.tse_onnx_path {
            let there: bool = exists_at(onnx);
            proof {
                t = StartReplies { tse_exists: there, ..t };
                assert(exists_at.ensures((onnx,), t.tse_exists));
            }
            if !there {
                let path: String = shown(onnx);
                proof {
                    t = StartReplies { tse_shown: path@, ..t };
                    assert(shown.ensures((onnx,), path));
                    assert(tse_asked(exists_at, shown, *onnx, t.tse_exists, t.tse_shown));
                }
                self.fail(text::joined("TSE ONNX path does not exist: ", path.as_str()));
                return Ghost(t);
            }
            assert(tse_asked(exists_at, shown, *onnx, t.tse_exists, t.tse_shown));
            pipeline_cfg = pipeline_cfg.with_tse(Some(paths::copy_path(onnx)));
        }
        let gate: GateConfig = if separating {
            GateConfig {
                theta_pass: Binary32 { bits: 0 },
                adaptive_theta: false,
                ..self.gate_cfg
            }
        } else {
            self.gate_cfg
        };
        let config: SessionConfig = SessionConfig {
            input_device: match &self.selected_input {
                Some(name) => Some(name.clone()),
                None => None,
            },
            output_device: match &self.selected_output {
                Some(name) => Some(name.clone()),
                None => None,
            },
            streaming: StreamingConfig {
                pipeline: pipeline_cfg,
                gate,
                audio_sample_rate: OUTPUT_SAMPLE_RATE,
                diagnostics: false,
                dfn3_onnx_path: None,
                overlap_onnx_path: None,
                overlap_bypass_speaker_gate: true,
                overlap_wet_dry_alpha: Binary32 { bits: OVERLAP_WET_DRY_ALPHA },
                overlap_hold_on_ms: Binary32 { bits: OVERLAP_HOLD_ON_MS },
                overlap_hold_off_ms: Binary32 { bits: OVERLAP_HOLD_OFF_MS },
            },
            dfn3_onnx_path,
            overlap_onnx_path,
            sepformer_onnx_path,
            speaker_embedding_onnx_path,
            speaker_selection_pool: match &self.separator_pool {
                Some(p) => Some(p.clone()),
                None => None,
            },
            separator_tuning: Some(self.separator_tuning),
            gate_tuning: if separating {
                None
            } else {
                Some(self.gate_tuning)
            },
            input_channel: ChannelStrategy::default(),
        };
        let ghost handed = (pool, config);
        assert(is_session_config(config, m.separator_pool, c, t));
        let opened: Result<(), OpenFailure> = open(pool, config);
        proof {
            t = StartReplies { opened, ..t };
            assert(open.ensures((handed.0, handed.1), opened));
            assert(is_session_config(handed.1, m.separator_pool, c, t));
            assert(open_asked(open, m.pool->0, m.separator_pool, c, t));
        }
        let reset: bool = match &opened {
            Ok(_) => true,
            Err(e) => e.controls_reset,
        };
        if !separating && reset {
            let threshold: Binary32 = self.gate_tuning.threshold();
            self.gate_tuning.update_diagnostics(Binary32 { bits: 0 }, threshold);
        }
        match opened {
            Ok(_) => {
                self.running = true;
                self.last_error = None;
            },
            Err(e) => {
                self.fail(text::joined("open live session: ", e.message.as_str()));
            },
        }
        Ghost(t)
    }
}

/// What comes of closing the session.
pub open spec fn stopped(m: ProfileModel, reply: Result<LiveSessionStats, String>) -> ProfileModel {
    match reply {
        Ok(stats) => ProfileModel { running: false, stats, last_error: None, ..m },
        Err(e) => ProfileModel {
            running: false,
            last_error: Some("stop session: "@ + e@),
            ..m
        },
    }
}

/// What the user is told about a failure of the worker.
pub open spec fn pipeline_message(message: Seq<char>) -> Seq<char> {
    "pipeline error: "@ + message
}

impl AppState {
    /// Closes the session with `stop`, and keeps its last counters.
    pub fn stop<F>(&mut self, stop: F) where F: FnOnce() -> Result<LiveSessionStats, String>
        requires
            old(self).valid(),
            old(self).running ==> stop.requires(()),
        ensures
            final(self).valid(),
            final(self).choices() == old(self).choices(),
            !old(self).running ==> final(self).profile() == old(self).profile(),
            old(self).running ==> exists|reply: Result<LiveSessionStats, String>| #[trigger]
                stop.ensures((), reply) && final(self).profile() == stopped(
                    old(self).profile(),
                    reply,
                ),
    {
        if !self.running {
            return;
        }
        self.running = false;
        let reply: Result<LiveSessionStats, String> = stop();
        assert(stop.ensures((), reply));
        match reply {
            Ok(stats) => {
                self.last_stats = stats;
                self.last_error = None;
            },
            Err(e) => {
                self.last_error = Some(text::joined("stop session: ", e.as_str()));
            },
        }
    }

    /// Takes over the counters of the running session and what it reports. A
    /// failure of the worker closes the session, and is what the user is told.
    pub fn poll_session<F>(
        &mut self,
        stats: LiveSessionStats,
        event: Option<SessionEvent>,
        stop: F,
    ) where
        F: FnOnce() -> Result<LiveSessionStats, String>,

        requires
            old(self).valid(),
            old(self).running && event is Some ==> stop.requires(()),
        ensures
            final(self).valid(),
            final(self).choices() == old(self).choices(),
            !old(self).running ==> final(self).profile() == old(self).profile(),
            old(self).running ==> match event {
                None => final(self).profile() == (ProfileModel { stats, ..old(self).profile() }),
                Some(SessionEvent::Error(message)) => exists|
                    reply: Result<LiveSessionStats, String>,
                | #[trigger]
                    stop.ensures((), reply) && final(self).profile() == state::failed(
                        stopped((ProfileModel { stats, ..old(self).profile() }), reply),
                        pipeline_message(message@),
                    ),
            },
    {
        if !self.running {
            return;
        }
        self.last_stats = stats;
        if let Some(SessionEvent::Error(message)) = event {
            self.stop(stop);
            self.fail(text::joined("pipeline error: ", message.as_str()));
        }
    }

    /// Brings the stored speaker gate up to date with the live controls, and returns
    /// the settings file that makes them survive the next launch. `number`
    /// writes a number with the given decimal places.
    pub fn save_gate_settings<N>(&mut self, number: &N) -> (r: String) where
        N: Fn(Binary32, u32) -> String,

        requires
            old(self).valid(),
            forall|x: Binary32, places: u32| number.requires((x, places)),
        ensures
            final(self).valid(),
            final(self).profile() == old(self).profile(),
            final(self).choices() == (ChoiceModel {
                gate_cfg: kept_controls(old(self).choices().gate_tuning, old(self).choices().gate_cfg),
                ..old(self).choices()
            }),
            is_settings_file(number, old(self).choices().gate_tuning, r@),
    {
        self.gate_cfg.theta_pass = self.gate_tuning.threshold();
        self.gate_cfg.hangover_ms = self.gate_tuning.hangover_ms();
        self.gate_cfg.release_ms = self.gate_tuning.release_ms();
        let threshold: String = number(self.gate_cfg.theta_pass, 3);
        let hangover: String = number(self.gate_cfg.hangover_ms, 0);
        let release: String = number(self.gate_cfg.release_ms, 0);
        proof {
            assert(number.ensures((self.gate_cfg.theta_pass, 3u32), threshold));
            assert(number.ensures((self.gate_cfg.hangover_ms, 0u32), hangover));
            assert(number.ensures((self.gate_cfg.release_ms, 0u32), release));
            assert(controls_written(
                number,
                self.gate_tuning@,
                threshold@,
                hangover@,
                release@,
            ));
        }
        write_settings(threshold.as_str(), hangover.as_str(), release.as_str())
    }

    /// Applies one coherent preset to the live controls, and returns the
    /// settings file that keeps it.
    pub fn set_gate_preset<N>(
        &mut self,
        threshold: Binary32,
        hangover_ms: Binary32,
        release_ms: Binary32,
        number: &N,
    ) -> (r: String) where N: Fn(Binary32, u32) -> String
        requires
            old(self).valid(),
            forall|x: Binary32, places: u32| number.requires((x, places)),
        ensures
            final(self).valid(),
            final(self).profile() == old(self).profile(),
            final(self).choices() == with_preset(
                old(self).choices(),
                threshold,
                hangover_ms,
                release_ms,
            ),
            is_settings_file(number, final(self).choices().gate_tuning, r@),
    {
        self.gate_tuning.set_threshold(threshold);
        self.gate_tuning.set_hangover_ms(hangover_ms);
        self.gate_tuning.set_release_ms(release_ms);
        self.save_gate_settings(number)
    }

    /// The file that makes the separator threshold survive the next launch.
    pub fn save_separator_threshold<N>(&self, number: &N) -> (r: String) where
        N: Fn(Binary32, u32) -> String,

        requires
            forall|x: Binary32, places: u32| number.requires((x, places)),
        ensures
            exists|n: Seq<char>| #[trigger]
                recording::written(number, self.separator_tuning.limit(), 3, n) && r@ == n + "\n"@,
    {
        let n: String = number(self.separator_tuning.threshold(), 3);
        proof {
            assert(number.ensures((self.separator_tuning.limit(), 3u32), n));
            assert(recording::written(number, self.separator_tuning.limit(), 3, n@));
        }
        text::joined(n.as_str(), "\n")
    }

    /// Takes over what fetching the extractor's model came to.
    pub fn fetch_tse_from_hf(&mut self, fetched: Result<PathBuf, String>)
        requires
            old(self).valid(),
        ensures
            final(self).valid(),
            match fetched {
                Ok(path) => {
                    &&& final(self).choices() == (ChoiceModel {
                        tse: Some(path),
                        ..old(self).choices()
                    })
                    &&& final(self).profile() == (ProfileModel {
                        last_error: None,
                        ..old(self).profile()
                    })
                },
                Err(e) => {
                    &&& final(self).choices() == old(self).choices()
                    &&& final(self).profile() == state::failed(
                        old(self).profile(),
                        "HuggingFace fetch failed: "@ + e@,
                    )
                },
            },
    {
        match fetched {
            Ok(path) => {
                self.tse_onnx_path = Some(path);
                self.last_error = None;
            },
            Err(e) => {
                self.fail(text::joined("HuggingFace fetch failed: ", e.as_str()));
            },
        }
    }

    pub fn is_running(&self) -> (r: bool)
        ensures
            r == self.running,
    {
        self.running
    }

    pub fn is_recording(&self) -> (r: bool)
        ensures
            r == self.recording,
    {
        self.recording
    }

    /// Whether an extractor was chosen and `exists_at` still finds its file.
    pub fn tse_available<X>(&self, exists_at: &X) -> (r: bool) where X: Fn(&PathBuf) -> bool
        requires
            forall|p: &PathBuf| exists_at.requires((p,)),
        ensures
            match self.tse_onnx_path {
                None => !r,
                Some(path) => exists|p: &PathBuf| *p == path && #[trigger]
                    exists_at.ensures((p,), r),
            },
    {
        match &self.tse_onnx_path {
            None => false,
            Some(path) => {
                let there: bool = exists_at(path);
                assert(exists_at.ensures((path,), there));
                there
            },
        }
    }

    /// Input level for the meter: that of the session, where one runs.
    pub fn input_rms(&self, live: Binary32) -> (r: Binary32)
        ensures
            r == (if self.running {
                live
            } else {
                Binary32 { bits: 0 }
            }),
    {
        if self.running {
            live
        } else {
            Binary32 { bits: 0 }
        }
    }

    /// Output level for the meter: that of the session, where one runs.
    pub fn output_rms(&self, live: Binary32) -> (r: Binary32)
        ensures
            r == (if self.running {
                live
            } else {
                Binary32 { bits: 0 }
            }),
    {
        if self.running {
            live
        } else {
            Binary32 { bits: 0 }
        }
    }

    /// Whether audio passes: what the session says, where one runs.
    pub fn gate_on(&self, live: bool) -> (r: bool)
        ensures
            r == (self.running && live),
    {
        self.running && live
    }
}

/// A gate with the live controls kept.
pub open spec fn kept_controls(t: TuningModel, config: GateConfig) -> GateConfig {
    GateConfig {
        theta_pass: t.threshold,
        hangover_ms: t.hangover_ms,
        release_ms: t.release_ms,
        ..config
    }
}

/// The choices with a preset applied and kept.
pub open spec fn with_preset(
    c: ChoiceModel,
    threshold: Binary32,
    hangover_ms: Binary32,
    release_ms: Binary32,
) -> ChoiceModel {
    let tuning = TuningModel {
        threshold: session::adjusted(
            c.gate_tuning.threshold,
            threshold,
            session::LEAST_THRESHOLD,
            session::GREATEST_THRESHOLD,
        ),
        hangover_ms: session::adjusted(
            c.gate_tuning.hangover_ms,
            hangover_ms,
            0,
            session::GREATEST_HANGOVER_MS,
        ),
        release_ms: session::adjusted(
            c.gate_tuning.release_ms,
            release_ms,
            0,
            session::GREATEST_RELEASE_MS,
        ),
        ..c.gate_tuning
    };
    ChoiceModel { gate_tuning: tuning, gate_cfg: kept_controls(tuning, c.gate_cfg), ..c }
}

/// `number` may write the three controls as these texts.
pub open spec fn controls_written<N: Fn(Binary32, u32) -> String>(
    number: &N,
    t: TuningModel,
    threshold: Seq<char>,
    hangover: Seq<char>,
    release: Seq<char>,
) -> bool {
    &&& recording::written(number, t.threshold, 3, threshold)
    &&& recording::written(number, t.hangover_ms, 0, hangover)
    &&& recording::written(number, t.release_ms, 0, release)
}

/// `file` is a settings file with the three controls.
pub open spec fn is_settings_file<N: Fn(Binary32, u32) -> String>(
    number: &N,
    t: TuningModel,
    file: Seq<char>,
) -> bool {
    exists|a: Seq<char>, b: Seq<char>, c: Seq<char>| #[trigger]
        controls_written(number, t, a, b, c) && file == settings::settings_text(a, b, c)
}

/// `y` is `x` to within half a thousandth, and half a unit in the last place of
/// a number below one.
pub open spec fn within_a_thousandth(x: Binary32, y: Binary32) -> bool {
    let room = decimals::one_in_units() + 2000 * pow2(124);
    2000 * (y.units() - x.units()) <= room && 2000 * (x.units() - y.units()) <= room
}

/// `y` is `x` to within a half.
pub open spec fn within_a_half(x: Binary32, y: Binary32) -> bool {
    2 * (y.units() - x.units()) <= decimals::one_in_units() && 2 * (x.units() - y.units())
        <= decimals::one_in_units()
}

/// `x` is a number below one with three decimals.
pub open spec fn has_three_decimals(x: Binary32) -> bool {
    exists|j: nat| j < 1000 && x == #[trigger] decimals::fixed_number(j, 3)
}

/// `x` is a whole number.
pub open spec fn is_whole(x: Binary32) -> bool {
    exists|j: nat| j < 0x100_0000 && x == #[trigger] decimals::fixed_number(j, 0)
}

/// The controls that were saved come back on the next launch: the threshold to
/// within half a thousandth, the times to within half a millisecond, and all
/// of them as they were where the threshold has three decimals and the times
/// are whole. Everything else of the speaker gate is what it is without a file. This
/// is so wherever numbers are written to the nearest decimal and read as the
/// nearest number.
#[verifier::rlimit(40)]
pub proof fn law_saved_controls_come_back<N, F>(
    number: &N,
    parse: F,
    base: GateConfig,
    t: TuningModel,
    file: &str,
    legacy: Option<&str>,
    readings: Seq<Option<Binary32>>,
    old_reading: Option<Binary32>,
    gate: GateConfig,
) where N: Fn(Binary32, u32) -> String, F: Fn(&str) -> Option<Binary32>
    requires
        decimals::writes_decimals(number),
        decimals::reads_decimals(parse),
        settings::threshold_allowed(t.threshold),
        settings::hangover_allowed(t.hangover_ms),
        settings::release_allowed(t.release_ms),
        is_settings_file(number, t, file@),
        settings::gate_loaded(parse, base, Some(file), legacy, readings, old_reading, gate),
    ensures
        within_a_thousandth(t.threshold, gate.theta_pass),
        within_a_half(t.hangover_ms, gate.hangover_ms),
        within_a_half(t.release_ms, gate.release_ms),
        has_three_decimals(t.threshold) ==> gate.theta_pass == t.threshold,
        is_whole(t.hangover_ms) ==> gate.hangover_ms == t.hangover_ms,
        is_whole(t.release_ms) ==> gate.release_ms == t.release_ms,
        gate == (GateConfig {
            theta_pass: gate.theta_pass,
            hangover_ms: gate.hangover_ms,
            release_ms: gate.release_ms,
            ..settings::default_gate(base)
        }),
{
    let (a, b, c) = choose|a: Seq<char>, b: Seq<char>, c: Seq<char>| #[trigger]
        controls_written(number, t, a, b, c) && file@ == settings::settings_text(a, b, c);
    decimals::lemma_range_ends();
    let i = lemma_written(number, t.threshold, 3, a, 150);
    let j = lemma_written(number, t.hangover_ms, 0, b, 100);
    let k = lemma_written(number, t.release_ms, 0, c, 30);
    decimals::lemma_three_places(t.threshold, i, 150, 850);
    decimals::lemma_whole_back(t.hangover_ms, j, 100, 1200);
    decimals::lemma_whole_back(t.release_ms, k, 30, 400);
    decimals::lemma_fixed_word(i, 3);
    decimals::lemma_fixed_word(j, 0);
    decimals::lemma_fixed_word(k, 0);
    let x = decimals::fixed_number(i, 3);
    let y = decimals::fixed_number(j, 0);
    let z = decimals::fixed_number(k, 0);
    settings::law_saved_settings_come_back(base, a, b, c, x, y, z, old_reading);
    let words = text::words(file@);
    let values = settings::value_words(words);
    assert(values == seq![a, b, c]);
    assert(settings::read_as(parse, values[0], readings[0]));
    assert(settings::read_as(parse, values[1], readings[1]));
    assert(settings::read_as(parse, values[2], readings[2]));
    assert(readings =~= seq![Some(x), Some(y), Some(z)]);
}

/// What was written is the decimal nearest to a number from some positive one
/// on.
proof fn lemma_written<N: Fn(Binary32, u32) -> String>(
    number: &N,
    x: Binary32,
    places: u32,
    s: Seq<char>,
    low: nat,
) -> (n: nat)
    requires
        decimals::writes_decimals(number),
        recording::written(number, x, places, s),
        places == 0 || places == 3,
        0 < low < 1000,
        exists|high: nat|
            low <= high < (if places == 0 {
                0x100_0000nat
            } else {
                1000
            }) && #[trigger] settings::between(
                decimals::fixed_number(low, places as nat).bits,
                x,
                decimals::fixed_number(high, places as nat).bits,
            ),
    ensures
        decimals::is_fixed(x, places as nat, n),
        s == decimals::fixed_text(n, places as nat),
{
    let high = choose|high: nat|
        low <= high < (if places == 0 {
            0x100_0000nat
        } else {
            1000
        }) && #[trigger] settings::between(
            decimals::fixed_number(low, places as nat).bits,
            x,
            decimals::fixed_number(high, places as nat).bits,
        );
    decimals::lemma_in_range(x, places as nat, low, high);
    let w = choose|w: String| #[trigger] number.ensures((x, places), w) && w@ == s;
    choose|n: nat|
        decimals::is_fixed(x, places as nat, n) && s == #[trigger] decimals::fixed_text(
            n,
            places as nat,
        )
}

/// The separator threshold that was saved comes back on the next launch to
/// within half a thousandth, and as it was where it has three decimals, wherever
/// numbers are written to the nearest decimal and read as the nearest number.
pub proof fn law_saved_separator_threshold_returns<N, F>(
    number: &N,
    parse: F,
    x: Binary32,
    written: Seq<char>,
    file: &str,
    reading: Option<Binary32>,
) where N: Fn(Binary32, u32) -> String, F: Fn(&str) -> Option<Binary32>
    requires
        decimals::writes_decimals(number),
        decimals::reads_decimals(parse),
        settings::separator_threshold_allowed(x),
        recording::written(number, x, 3, written),
        file@ == written + "\n"@,
        settings::file_read_as(parse, Some(file), reading),
    ensures
        within_a_thousandth(x, settings::separator_threshold_from(reading)),
        has_three_decimals(x) ==> settings::separator_threshold_from(reading) == x,
{
    decimals::lemma_range_ends();
    let i = lemma_written(number, x, 3, written, 50);
    decimals::lemma_three_places(x, i, 50, 950);
    decimals::lemma_fixed_word(i, 3);
    settings::law_saved_separator_threshold_comes_back(written, decimals::fixed_number(i, 3));
}

/// A failure of the worker closes the session and stays on display, whatever
/// closing it came to.
pub proof fn law_worker_failures_stay_visible(
    m: ProfileModel,
    message: Seq<char>,
    reply: Result<LiveSessionStats, String>,
)
    ensures
        ({
            let after = state::failed(stopped(m, reply), pipeline_message(message));
            !after.running && after.last_error == Some("pipeline error: "@ + message)
        }),
{
}

/// A session opens only with a profile, and with the separator only where its
/// companion profile and its embedding model are there; the separator then
/// runs alone, without extractor, router or a second speaker gate.
pub proof fn law_sessions_need_a_profile(m: ProfileModel, c: ChoiceModel, t: StartReplies)
    requires
        !m.running,
        start_outcome(m, c, t).0.running,
    ensures
        m.pool is Some,
        t.sepformer is Some ==> m.separator_pool is Some && t.ecapa is Ok
            && session_streaming(c, t).pipeline.tse is None && session_gate(c, t).theta_pass.bits
            == 0 && !session_gate(c, t).adaptive_theta,
        start_outcome(m, c, t).0.last_error is None,
{
}

/// An attempt to open a session changes neither the profile nor the controls,
/// and where it fails it says why. All that the controls can come to show is
/// that there is no score yet, and the threshold that is set; where the session
/// opens without the separator, they do.
pub proof fn law_starting_keeps_the_profile(m: ProfileModel, c: ChoiceModel, t: StartReplies)
    ensures
        ({
            let (after, choices) = start_outcome(m, c, t);
            &&& after.pool == m.pool
            &&& after.separator_pool == m.separator_pool
            &&& after.origin == m.origin
            &&& after.recording == m.recording
            &&& choices == (ChoiceModel {
                tse: choices.tse,
                gate_tuning: choices.gate_tuning,
                ..c
            })
            &&& choices.gate_tuning == c.gate_tuning || choices.gate_tuning == session::at_start(
                c.gate_tuning,
            )
            &&& !m.running && after.running && t.sepformer is None ==> choices.gate_tuning
                == session::at_start(c.gate_tuning)
            &&& t.sepformer is Some ==> choices.gate_tuning == c.gate_tuning
            &&& c.tse is Some ==> choices.tse == c.tse
            &&& !after.running ==> after.last_error is Some
        }),
{
}

/// A session opens wherever everything that it needs is there: a profile, the
/// models, for the separator its companion and its embedding model, and for the
/// extractor, where one was chosen or found, its file.
pub proof fn law_sessions_open_when_all_is_there(m: ProfileModel, c: ChoiceModel, t: StartReplies)
    requires
        !m.running && m.pool is Some && t.built is Ok && t.opened is Ok,
        t.sepformer is Some ==> m.separator_pool is Some && t.ecapa is Ok,
        t.sepformer is None && (c.tse is Some || t.tse is Some) ==> t.tse_exists,
    ensures
        start_outcome(m, c, t).0.running,
        start_outcome(m, c, t).0.last_error is None,
{
}

/// Whatever is missing or goes wrong keeps a session from opening.
pub proof fn law_sessions_do_not_open_otherwise(m: ProfileModel, c: ChoiceModel, t: StartReplies)
    requires
        !m.running,
        m.pool is None || t.built is Err || t.opened is Err || t.sepformer is Some && (
        m.separator_pool is None || t.ecapa is Err) || t.sepformer is None && !t.tse_exists && (
        c.tse is Some || t.tse is Some),
    ensures
        !start_outcome(m, c, t).0.running,
        start_outcome(m, c, t).0.last_error is Some,
{
}

/// The extractor that was chosen is the one that runs; another is looked for
/// only where none was chosen and the separator is not there.
pub proof fn law_chosen_extractors_win(c: ChoiceModel, t: StartReplies)
    ensures
        c.tse is Some ==> resolved_tse(c, t) == c.tse,
        c.tse is None && t.sepformer is None ==> resolved_tse(c, t) == t.tse,
        t.sepformer is Some ==> resolved_tse(c, t) == c.tse && session_streaming(
            c,
            t,
        ).pipeline.tse is None,
        t.sepformer is None && c.tse is Some ==> session_streaming(c, t).pipeline.tse == c.tse,
        t.sepformer is None && c.tse is None && t.tse is Some ==> session_streaming(
            c,
            t,
        ).pipeline.tse == t.tse,
{
}

/// A session is opened with what the user chose: its devices, the separator's
/// threshold, and without the separator the speaker gate with its live controls
/// and the overlap detector. With the separator those stay out, and the second
/// speaker gate lets everything pass.
pub proof fn law_sessions_follow_the_choices(
    config: SessionConfig,
    companion: Option<PoolModel>,
    c: ChoiceModel,
    t: StartReplies,
)
    requires
        is_session_config(config, companion, c, t),
    ensures
        state::optional_text(config.input_device) == c.selected_input,
        state::optional_text(config.output_device) == c.selected_output,
        config.separator_tuning == Some(c.separator_tuning),
        config.sepformer_onnx_path is Some <==> config.speaker_embedding_onnx_path is Some,
        config.sepformer_onnx_path == t.sepformer,
        config.dfn3_onnx_path == t.dfn3,
        state::optional_pool(config.speaker_selection_pool) == companion,
        config.streaming.audio_sample_rate == 48_000,
        config.streaming.overlap_bypass_speaker_gate,
        config.streaming.pipeline == (PipelineConfig {
            tse: config.streaming.pipeline.tse,
            ..c.pipeline_cfg
        }),
        t.sepformer is None ==> {
            &&& config.gate_tuning matches Some(g) && g@ == c.gate_tuning
            &&& config.streaming.gate == c.gate_cfg
            &&& config.overlap_onnx_path == t.overlap
        },
        t.sepformer is Some ==> {
            &&& config.gate_tuning is None
            &&& config.overlap_onnx_path is None
            &&& config.streaming.gate.theta_pass.bits == 0
            &&& !config.streaming.gate.adaptive_theta
            &&& config.streaming.gate.hangover_ms == c.gate_cfg.hangover_ms
            &&& config.streaming.gate.release_ms == c.gate_cfg.release_ms
        },
{
}

/// Closing a session keeps everything that is enrolled, and takes over its last
/// counters where they could be had.
pub proof fn law_stopping_keeps_the_profile(
    m: ProfileModel,
    reply: Result<LiveSessionStats, String>,
)
    ensures
        ({
            let after = stopped(m, reply);
            &&& !after.running
            &&& after.pool == m.pool && after.separator_pool == m.separator_pool
            &&& after.origin == m.origin && after.recording == m.recording
            &&& after.quality == m.quality && after.pending_append == m.pending_append
            &&& reply matches Ok(stats) ==> after.stats == stats && after.last_error is None
            &&& reply matches Err(e) ==> after.stats == m.stats && after.last_error is Some
        }),
{
}

/// A preset with a threshold from 0.05 to 0.95, a hangover up to two seconds
/// and a release up to one is what the live controls and the stored gate both
/// come to; nothing else of either changes.
pub proof fn law_presets_reach_both_gates(
    c: ChoiceModel,
    threshold: Binary32,
    hangover_ms: Binary32,
    release_ms: Binary32,
)
    requires
        (Binary32 { bits: 0x3d4c_cccd }).le(threshold) && threshold.le(
            Binary32 { bits: 0x3f73_3333 },
        ),
        (Binary32 { bits: 0 }).le(hangover_ms) && hangover_ms.le(Binary32 { bits: 0x44fa_0000 }),
        (Binary32 { bits: 0 }).le(release_ms) && release_ms.le(Binary32 { bits: 0x447a_0000 }),
    ensures
        ({
            let after = with_preset(c, threshold, hangover_ms, release_ms);
            &&& after.gate_tuning == (TuningModel {
                threshold,
                hangover_ms,
                release_ms,
                last_score: c.gate_tuning.last_score,
                effective_threshold: c.gate_tuning.effective_threshold,
            })
            &&& after.gate_cfg == (GateConfig {
                theta_pass: threshold,
                hangover_ms,
                release_ms,
                ..c.gate_cfg
            })
            &&& after == (ChoiceModel {
                gate_tuning: after.gate_tuning,
                gate_cfg: after.gate_cfg,
                ..c
            })
        }),
{
    lemma_settable(threshold, 0x3d4c_cccd, 0x3f73_3333);
    lemma_settable(hangover_ms, 0, 0x44fa_0000);
    lemma_settable(release_ms, 0, 0x447a_0000);
}

/// A number between two finite ones is taken by a control with those bounds.
proof fn lemma_settable(x: Binary32, low: u32, high: u32)
    requires
        (Binary32 { bits: low }).le(x) && x.le(Binary32 { bits: high }),
        (Binary32 { bits: low }).finite() && (Binary32 { bits: high }).finite(),
    ensures
        forall|current: Binary32| #[trigger] session::adjusted(current, x, low, high) == x,
{
    let a = Binary32 { bits: low };
    let b = Binary32 { bits: high };
    assert(!x.nan()) by {
        reveal(Binary32::le);
    }
    crate::binary32::lemma_total(x, a, b);
    crate::binary32::lemma_total(b, x, b);
    assert(x.finite()) by {
        reveal(Binary32::le);
        crate::binary32::lemma_format();
        let f = crate::binary32::format();
        crate::binary::lemma_order(f, b.parts().pattern, x.parts().pattern);
        crate::binary::lemma_order(f, a.parts().pattern, x.parts().pattern);
    }
}

/// During overlap the extracted voice runs alone, believed in after 750 ms and
/// believed over after 1250 ms; a session does not record diagnostics.
pub proof fn law_overlap_is_held(c: ChoiceModel, t: StartReplies)
    ensures
        session_streaming(c, t).overlap_wet_dry_alpha.bits == 0x3f80_0000,
        session_streaming(c, t).overlap_hold_on_ms.bits == 0x443b_8000,
        session_streaming(c, t).overlap_hold_off_ms.bits == 0x449c_4000,
        !session_streaming(c, t).diagnostics,
{
}

} // verus!
