//! What the live pipeline is told to do.

use crate::binary32::Binary32;
use crate::gating::GateConfig;
use crate::paths;
use std::path::PathBuf;
use vstd::prelude::*;

verus! {

/// Cadence of the identity decision, and which extractor runs.
#[derive(Debug)]
pub struct PipelineConfig {
    /// Silence after which the speaker gate closes whatever the last score was.
    pub silence_force_off_ms: Binary32,
    /// Length of an identity window.
    pub sv_window_samples: usize,
    /// How often an identity window is scored.
    pub sv_update_samples: usize,
    /// Weight of the newest score.
    pub score_ema_alpha: Binary32,
    /// Whether scoring runs off the audio thread.
    pub async_refresh: bool,
    /// New speech after a silence that is scored early.
    pub sv_min_new_samples_after_silence: usize,
    /// Whether the enrolled profile adapts to live audio.
    pub enable_auto_learn: bool,
    /// Model of the target-speaker extractor, where one runs.
    pub tse: Option<PathBuf>,
}

impl PipelineConfig {
    /// The cadence for live microphone use.
    pub open spec fn live() -> PipelineConfig {
        PipelineConfig {
            silence_force_off_ms: Binary32 { bits: 0x442f_0000 },
            sv_window_samples: 16_000,
            sv_update_samples: 4_000,
            score_ema_alpha: Binary32 { bits: 0x3f66_6666 },
            async_refresh: true,
            sv_min_new_samples_after_silence: 1_600,
            enable_auto_learn: false,
            tse: None,
        }
    }

    /// The same cadence with another extractor.
    pub fn with_tse(&self, tse: Option<PathBuf>) -> (r: PipelineConfig)
        ensures
            r == (PipelineConfig { tse, ..*self }),
    {
        PipelineConfig {
            silence_force_off_ms: self.silence_force_off_ms,
            sv_window_samples: self.sv_window_samples,
            sv_update_samples: self.sv_update_samples,
            score_ema_alpha: self.score_ema_alpha,
            async_refresh: self.async_refresh,
            sv_min_new_samples_after_silence: self.sv_min_new_samples_after_silence,
            enable_auto_learn: self.enable_auto_learn,
            tse,
        }
    }
}

impl Clone for PipelineConfig {
    fn clone(&self) -> (r: Self)
        ensures
            r == *self,
    {
        self.with_tse(paths::copy_optional(&self.tse))
    }
}

/// Pipeline configuration for live sessions:
///
/// * 700 ms of silence close the speaker gate: an ordinary pause between words does
///   not, and an old score cannot hold it open in an empty room.
/// * A one-second identity window, the shortest that keeps the enrolled
///   speaker apart from an impostor, is scored every 250 ms off the audio
///   thread.
/// * The newest score weighs 0.9, and after a silence 100 ms of new speech are
///   enough to score again.
/// * The profile is never adapted from live audio: a sustained friend could
///   otherwise drift it.
pub fn default_live_pipeline_cfg() -> (r: PipelineConfig)
    ensures
        r == PipelineConfig::live(),
{
    PipelineConfig {
        silence_force_off_ms: Binary32 { bits: 0x442f_0000 },
        sv_window_samples: 16_000,
        sv_update_samples: 4_000,
        score_ema_alpha: Binary32 { bits: 0x3f66_6666 },
        async_refresh: true,
        sv_min_new_samples_after_silence: 1_600,
        enable_auto_learn: false,
        tse: None,
    }
}

/// What the streaming engine is built with.
#[derive(Debug)]
pub struct StreamingConfig {
    pub pipeline: PipelineConfig,
    pub gate: GateConfig,
    pub audio_sample_rate: u32,
    pub diagnostics: bool,
    /// Noise-suppression model.
    pub dfn3_onnx_path: Option<PathBuf>,
    /// Overlap detector, which routes the chain adaptively.
    pub overlap_onnx_path: Option<PathBuf>,
    /// Whether overlapped speech bypasses the speaker gate.
    pub overlap_bypass_speaker_gate: bool,
    /// Share of the extracted voice in the output during overlap.
    pub overlap_wet_dry_alpha: Binary32,
    /// How long overlap has to last before it is believed.
    pub overlap_hold_on_ms: Binary32,
    /// How long it has to be over before that is believed.
    pub overlap_hold_off_ms: Binary32,
}

impl Clone for StreamingConfig {
    fn clone(&self) -> (r: Self)
        ensures
            r == *self,
    {
        StreamingConfig {
            pipeline: self.pipeline.clone(),
            gate: self.gate,
            audio_sample_rate: self.audio_sample_rate,
            diagnostics: self.diagnostics,
            dfn3_onnx_path: paths::copy_optional(&self.dfn3_onnx_path),
            overlap_onnx_path: paths::copy_optional(&self.overlap_onnx_path),
            overlap_bypass_speaker_gate: self.overlap_bypass_speaker_gate,
            overlap_wet_dry_alpha: self.overlap_wet_dry_alpha,
            overlap_hold_on_ms: self.overlap_hold_on_ms,
            overlap_hold_off_ms: self.overlap_hold_off_ms,
        }
    }
}

} // verus!
