//! Voice-gated microphone engine.

pub mod audio;
pub mod binary;
pub mod binary32;
pub mod binary64;
pub mod capture;
pub mod converters;
pub mod decimals;
pub mod display;
pub mod enrollment;
pub mod gating;
pub mod launch;
pub mod nontarget;
pub mod ort_threads;
pub mod paths;
pub mod pipeline;
pub mod playback;
pub mod recording;
pub mod resample;
pub mod resampler;
pub mod rounding;
pub mod separation;
pub mod sepformer;
pub mod session;
pub mod settings;
pub mod state;
pub mod text;
pub mod vectors;
pub mod worker;
