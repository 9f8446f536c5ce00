use mellonella::binary32::Binary32;
use mellonella::enrollment::EmbeddingPool;
use mellonella::enrollment::EmbeddingPoolConfig;
use mellonella::gating::GateConfig;
use mellonella::pipeline::default_live_pipeline_cfg;
use mellonella::pipeline::StreamingConfig;
use mellonella::session::check_formats;
use mellonella::session::pick_device;
use mellonella::session::plan_session;
use mellonella::session::AudioIoError;
use mellonella::session::ChannelStrategy;
use mellonella::session::DeviceChoice;
use mellonella::session::DeviceKind;
use mellonella::session::GateTuning;
use mellonella::session::SampleKind;
use mellonella::session::SessionConfig;
use std::path::PathBuf;

fn b(x: f32) -> Binary32 {
    Binary32 { bits: x.to_bits() }
}

fn f(x: Binary32) -> f32 {
    f32::from_bits(x.bits)
}

fn gate() -> GateConfig {
    GateConfig {
        theta_pass: b(0.30),
        adaptive_theta: true,
        use_as_norm: false,
        hangover_ms: b(200.0),
        hangover_floor_frac: b(0.5),
        release_ms: b(80.0),
        attack_ms: b(10.0),
        theta_f0: b(0.5),
        other_speaker_margin: b(0.08),
    }
}

fn config() -> SessionConfig {
    SessionConfig {
        input_device: None,
        output_device: None,
        streaming: StreamingConfig {
            pipeline: default_live_pipeline_cfg(),
            gate: gate(),
            audio_sample_rate: 44_100,
            diagnostics: false,
            dfn3_onnx_path: None,
            overlap_onnx_path: None,
            overlap_bypass_speaker_gate: true,
            overlap_wet_dry_alpha: b(1.0),
            overlap_hold_on_ms: b(750.0),
            overlap_hold_off_ms: b(1250.0),
        },
        dfn3_onnx_path: None,
        overlap_onnx_path: None,
        sepformer_onnx_path: None,
        speaker_embedding_onnx_path: None,
        speaker_selection_pool: None,
        separator_tuning: None,
        gate_tuning: None,
        input_channel: ChannelStrategy::Average,
    }
}

fn pool(anchor: f32) -> EmbeddingPool {
    let mut pool = EmbeddingPool::new(EmbeddingPoolConfig::default());
    pool.add_anchors(vec![vec![b(anchor)]]);
    pool
}

#[test]
fn gate_tuning_updates_only_exposed_fields() {
    let base = GateConfig {
        theta_pass: b(0.30),
        hangover_ms: b(200.0),
        release_ms: b(80.0),
        attack_ms: b(27.0),
        theta_f0: b(0.61),
        adaptive_theta: true,
        ..gate()
    };
    let mut tuning = GateTuning::new(base);
    tuning.set_threshold(b(0.57));
    tuning.set_hangover_ms(b(625.0));
    tuning.set_release_ms(b(170.0));
    let changed = tuning.apply_to(base);
    assert_eq!(f(changed.theta_pass), 0.57);
    assert_eq!(f(changed.hangover_ms), 625.0);
    assert_eq!(f(changed.release_ms), 170.0);
    assert_eq!(f(changed.attack_ms), 27.0);
    assert_eq!(f(changed.theta_f0), 0.61);
    assert!(!changed.adaptive_theta);
}

#[test]
fn gate_tuning_rejects_non_finite_and_clamps_extremes() {
    let mut tuning = GateTuning::new(gate());
    tuning.set_threshold(b(f32::NAN));
    assert_eq!(tuning.threshold(), gate().theta_pass);
    tuning.set_threshold(b(5.0));
    tuning.set_hangover_ms(b(-10.0));
    tuning.set_release_ms(b(5_000.0));
    assert_eq!(f(tuning.threshold()), 0.95);
    assert_eq!(f(tuning.hangover_ms()), 0.0);
    assert_eq!(f(tuning.release_ms()), 1_000.0);
}

#[test]
fn controls_stay_within_their_bounds_and_keep_what_is_no_number() {
    let mut tuning = GateTuning::new(gate());
    for x in [f32::INFINITY, f32::NEG_INFINITY, f32::NAN] {
        tuning.set_threshold(b(x));
        tuning.set_hangover_ms(b(x));
        tuning.set_release_ms(b(x));
        assert_eq!(f(tuning.threshold()), 0.30);
        assert_eq!(f(tuning.hangover_ms()), 200.0);
        assert_eq!(f(tuning.release_ms()), 80.0);
    }
    tuning.set_threshold(b(-1.0));
    assert_eq!(f(tuning.threshold()), 0.05);
    tuning.set_hangover_ms(b(9_999.0));
    assert_eq!(f(tuning.hangover_ms()), 2_000.0);
}

#[test]
fn diagnostics_are_what_was_last_measured() {
    let mut tuning = GateTuning::new(gate());
    assert_eq!(f(tuning.last_score()), 0.0);
    assert_eq!(f(tuning.effective_threshold()), 0.30);
    tuning.update_diagnostics(b(0.7), b(0.4));
    assert_eq!(f(tuning.last_score()), 0.7);
    assert_eq!(f(tuning.effective_threshold()), 0.4);
    assert_eq!(f(tuning.threshold()), 0.30);
}

#[test]
fn the_first_device_of_a_name_is_opened() {
    let listed = vec![
        None,
        Some("Speaker".to_string()),
        Some("Mic".to_string()),
        Some("Mic".to_string()),
    ];
    assert!(matches!(
        pick_device(&listed, DeviceKind::Input, Some("Mic"), true),
        Ok(DeviceChoice::Listed(2))
    ));
    assert!(matches!(
        pick_device(&listed, DeviceKind::Output, None, true),
        Ok(DeviceChoice::HostDefault)
    ));
    assert!(matches!(
        pick_device(&listed, DeviceKind::Output, None, false),
        Err(AudioIoError::NoDefaultDevice(DeviceKind::Output))
    ));
    match pick_device(&listed, DeviceKind::Input, Some("mic"), true) {
        Err(AudioIoError::DeviceNotFound { kind, name }) => {
            assert_eq!(kind, DeviceKind::Input);
            assert_eq!(name, "mic");
        }
        other => panic!("unexpected {other:?}"),
    }
}

#[test]
fn both_devices_have_to_offer_single_precision() {
    let other = || SampleKind::Other("i16".to_string());
    assert!(check_formats(&SampleKind::F32, &SampleKind::F32).is_ok());
    match check_formats(&other(), &other()) {
        Err(AudioIoError::UnsupportedSampleFormat { format }) => assert_eq!(format, "input i16"),
        r => panic!("unexpected {r:?}"),
    }
    match check_formats(&SampleKind::F32, &other()) {
        Err(AudioIoError::UnsupportedSampleFormat { format }) => assert_eq!(format, "output i16"),
        r => panic!("unexpected {r:?}"),
    }
}

#[test]
fn a_session_runs_at_the_internal_rate_with_its_models() {
    let mut c = config();
    c.dfn3_onnx_path = Some(PathBuf::from("dfn3.onnx"));
    c.overlap_onnx_path = Some(PathBuf::from("overlap.onnx"));
    c.streaming.pipeline.tse = Some(PathBuf::from("tse.onnx"));
    let mut tuning = GateTuning::new(gate());
    tuning.update_diagnostics(b(0.9), b(0.8));
    c.gate_tuning = Some(tuning);
    let plan = plan_session(&pool(1.0), &c).unwrap();
    assert_eq!(plan.streaming.audio_sample_rate, 48_000);
    assert_eq!(plan.streaming.dfn3_onnx_path, c.dfn3_onnx_path);
    assert_eq!(plan.streaming.overlap_onnx_path, c.overlap_onnx_path);
    assert_eq!(plan.streaming.pipeline.tse, c.streaming.pipeline.tse);
    assert!(plan.dfn3_enabled && plan.adaptive_enabled);
    assert!(plan.separation.is_none());
    let started = plan.gate_tuning.unwrap();
    assert_eq!(f(started.last_score()), 0.0);
    assert_eq!(f(started.effective_threshold()), 0.30);

    let plain = plan_session(&pool(1.0), &config()).unwrap();
    assert!(!plain.dfn3_enabled && !plain.adaptive_enabled && plain.gate_tuning.is_none());
}

#[test]
fn the_separator_needs_both_of_its_models() {
    let mut c = config();
    c.sepformer_onnx_path = Some(PathBuf::from("sepformer.onnx"));
    match plan_session(&pool(1.0), &c) {
        Err(AudioIoError::Pipeline(m)) => assert_eq!(
            m,
            "SepFormer and speaker-embedding ONNX paths must be configured together"
        ),
        other => panic!("unexpected {other:?}"),
    }
    c.speaker_embedding_onnx_path = Some(PathBuf::from("ecapa.onnx"));
    let plan = plan_session(&pool(1.0), &c).unwrap().separation.unwrap();
    assert_eq!(plan.sepformer, PathBuf::from("sepformer.onnx"));
    assert_eq!(plan.ecapa, PathBuf::from("ecapa.onnx"));
    assert_eq!(f(plan.tuning.threshold()), 0.5);
    assert_eq!(f(plan.pool.anchors()[0][0]), 1.0);

    c.speaker_selection_pool = Some(pool(2.0));
    let plan = plan_session(&pool(1.0), &c).unwrap().separation.unwrap();
    assert_eq!(f(plan.pool.anchors()[0][0]), 2.0);
}
