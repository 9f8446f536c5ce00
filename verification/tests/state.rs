use mellonella::audio::INTERNAL_SAMPLE_RATE;
use mellonella::binary32::Binary32;
use mellonella::enrollment::EmbeddingPool;
use mellonella::enrollment::EmbeddingPoolConfig;
use mellonella::enrollment::PersistenceError;
use mellonella::gating::GateConfig;
use mellonella::paths::copy_optional;
use mellonella::paths::default_enrollment_path;
use mellonella::paths::default_separator_enrollment_path;
use mellonella::paths::file_in;
use mellonella::paths::gate_settings_path;
use mellonella::paths::legacy_voiceprint_threshold_path;
use mellonella::paths::separator_threshold_path;
use mellonella::pipeline::default_live_pipeline_cfg;
use mellonella::session::ChannelStrategy;
use mellonella::session::OpenFailure;
use mellonella::session::SessionConfig;
use mellonella::state::preferred_device;
use mellonella::state::AppState;
use mellonella::state::AudioDevice;
use mellonella::state::EnrollmentOrigin;
use mellonella::state::Grade;
use mellonella::state::DECISION_SAMPLE_RATE;
use mellonella::state::OUTPUT_SAMPLE_RATE;
use mellonella::worker::LiveSessionStats;
use mellonella::worker::SessionEvent;
use std::cell::RefCell;
use std::path::PathBuf;

fn b(x: f32) -> Binary32 {
    Binary32 { bits: x.to_bits() }
}

fn f(x: Binary32) -> f32 {
    f32::from_bits(x.bits)
}

fn number(x: Binary32, places: u32) -> String {
    format!("{:.1$}", f(x), places as usize)
}

fn gate() -> GateConfig {
    GateConfig {
        theta_pass: b(0.45),
        adaptive_theta: false,
        use_as_norm: false,
        hangover_ms: b(500.0),
        hangover_floor_frac: b(0.5),
        release_ms: b(120.0),
        attack_ms: b(10.0),
        theta_f0: b(0.5),
        other_speaker_margin: b(0.08),
    }
}

fn devices(names: &[&str]) -> Vec<AudioDevice> {
    names
        .iter()
        .map(|n| AudioDevice {
            name: n.to_string(),
        })
        .collect()
}

fn fresh() -> AppState {
    AppState::new(
        devices(&["Mic"]),
        devices(&["Speaker"]),
        None,
        None,
        None,
        gate(),
        b(0.5),
    )
}

fn pool(anchors: &[[f32; 2]]) -> EmbeddingPool {
    let mut pool = EmbeddingPool::new(EmbeddingPoolConfig::default());
    pool.add_anchors(anchors.iter().map(|a| vec![b(a[0]), b(a[1])]).collect());
    pool
}

#[test]
fn default_state_is_idle() {
    let s = fresh();
    assert!(!s.is_running());
    assert!(!s.is_recording());
    assert!(s.last_error.is_none());
}

#[test]
fn loading_a_missing_enrollment_records_an_error() {
    let mut s = fresh();
    s.load_enrollment_json(
        PathBuf::from("/no/such/enrollment-mellonella-gui-test.json"),
        Err(PersistenceError::Io("No such file or directory".to_string())),
        None,
    );
    assert!(s.last_error.is_some(), "expected an error to be recorded");
    assert!(s.pool.is_none());
    assert!(matches!(s.origin, EnrollmentOrigin::Nowhere));
    assert!(s.pool.is_none());
    assert_eq!(
        s.last_error.as_deref(),
        Some("load enrollment: I/O error: No such file or directory")
    );
}

#[test]
fn refresh_devices_clears_invalid_selection() {
    let mut s = AppState {
        selected_input: Some("__not-a-real-device__".into()),
        ..fresh()
    };
    s.refresh_devices(devices(&["Mic"]), devices(&["Speaker"]));
    assert!(s.selected_input.is_none());
}

#[test]
fn refreshing_keeps_a_selection_that_is_still_there() {
    let mut s = fresh();
    s.selected_input = Some("Mic".to_string());
    s.selected_output = Some("Speaker".to_string());
    s.refresh_devices(devices(&["Other", "Mic"]), devices(&[]));
    assert_eq!(s.selected_input.as_deref(), Some("Mic"));
    assert!(s.selected_output.is_none());
    assert_eq!(s.available_inputs.len(), 2);
    assert!(s.available_outputs.is_empty());
}

#[test]
fn sample_rates_match_streaming_and_audio_io_constants() {
    assert_eq!(
        OUTPUT_SAMPLE_RATE, INTERNAL_SAMPLE_RATE,
        "OUTPUT_SAMPLE_RATE must match the internal sample rate",
    );
}

#[test]
fn live_identity_window_is_at_least_one_second() {
    let config = default_live_pipeline_cfg();
    assert!(config.sv_window_samples >= DECISION_SAMPLE_RATE as usize);
    assert!(
        config.async_refresh,
        "live ECAPA must stay off the audio thread"
    );
    assert!(
        !config.enable_auto_learn,
        "never adapt from live call audio"
    );
}

#[test]
fn the_live_cadence_is_fixed() {
    let config = default_live_pipeline_cfg();
    assert_eq!(f(config.silence_force_off_ms), 700.0);
    assert_eq!(config.sv_window_samples, 16_000);
    assert_eq!(config.sv_update_samples, 4_000);
    assert_eq!(f(config.score_ema_alpha), 0.9);
    assert_eq!(config.sv_min_new_samples_after_silence, 1_600);
    assert!(config.tse.is_none());
    let with = config.with_tse(Some(PathBuf::from("x")));
    assert_eq!(with.clone().tse, Some(PathBuf::from("x")));
    assert_eq!(with.sv_update_samples, 4_000);
}

#[test]
fn default_enrollment_path_lives_under_config_dir() {
    let Some(p) = default_enrollment_path() else {
        println!("[skip] no config dir on this platform");
        return;
    };
    assert!(
        p.ends_with("mellonella/enrollment.json") || p.ends_with("mellonella\\enrollment.json"),
        "unexpected suffix: {}",
        p.display()
    );
}

#[test]
fn every_file_has_its_place() {
    let dir = Some(PathBuf::from("/base"));
    assert_eq!(
        file_in(dir, "enrollment.json"),
        Some(PathBuf::from("/base/mellonella/enrollment.json"))
    );
    assert_eq!(file_in(None, "enrollment.json"), None);
    for (path, name) in [
        (
            default_separator_enrollment_path(),
            "mellonella/enrollment-separator.json",
        ),
        (separator_threshold_path(), "mellonella/separator-threshold.txt"),
        (gate_settings_path(), "mellonella/gate-settings.txt"),
        (
            legacy_voiceprint_threshold_path(),
            "mellonella/voiceprint-threshold.txt",
        ),
    ] {
        assert!(path.is_none() || path.clone().unwrap().ends_with(name));
        assert_eq!(copy_optional(&path), path);
    }
}

#[test]
fn a_preferred_device_is_found_by_name_or_part_of_it() {
    let listed = devices(&["HyperX QuadCast", "hyper", "Line In"]);
    assert_eq!(preferred_device(None, &listed), None);
    assert_eq!(
        preferred_device(Some("hyper"), &listed).as_deref(),
        Some("hyper")
    );
    assert_eq!(
        preferred_device(Some("QUADCAST"), &listed).as_deref(),
        Some("HyperX QuadCast")
    );
    assert_eq!(preferred_device(Some("usb"), &listed), None);
    let s = AppState::new(
        listed,
        devices(&["Out"]),
        Some("line"),
        Some("Out"),
        Some(PathBuf::from("tse.onnx")),
        gate(),
        b(0.42),
    );
    assert_eq!(s.selected_input.as_deref(), Some("Line In"));
    assert_eq!(s.selected_output.as_deref(), Some("Out"));
    assert_eq!(f(s.separator_tuning.threshold()), 0.42);
    assert_eq!(f(s.record_duration_secs), 20.0);
    assert_eq!(s.tse_onnx_path, Some(PathBuf::from("tse.onnx")));
}

#[test]
fn a_saved_enrollment_is_taken_over_on_launch() {
    let mut s = fresh();
    s.load_enrollment_json(
        PathBuf::from("/base/enrollment.json"),
        Ok(pool(&[[1.0, 0.0], [0.9, 0.1]])),
        Some(pool(&[[1.0, 0.0]])),
    );
    assert!(matches!(s.origin, EnrollmentOrigin::AutoLoaded(_)));
    assert_eq!(s.pool_anchors, 2);
    assert!(s.separator_pool.is_some());
    assert_eq!(s.enrollment_quality.unwrap().grade, Grade::Good);
    assert!(s.last_error.is_none());
    // A load that fails later drops everything again.
    s.load_enrollment_json(
        PathBuf::from("/base/enrollment.json"),
        Err(PersistenceError::UnsupportedVersion(9)),
        None,
    );
    assert!(s.pool.is_none() && s.separator_pool.is_none());
    assert_eq!(s.pool_anchors, 0);
    assert!(s.enrollment_quality.is_none());
}

#[test]
fn profiles_are_graded_by_their_consistency() {
    let grade = |anchors: &[[f32; 2]]| {
        let mut s = fresh();
        s.store_pool(pool(anchors), EnrollmentOrigin::Mic { secs: 5 });
        s.enrollment_quality.unwrap().grade
    };
    assert_eq!(grade(&[[1.0, 0.0], [0.6, 0.8]]), Grade::Good);
    assert_eq!(grade(&[[1.0, 0.0], [0.5, 0.8660254]]), Grade::Usable);
    assert_eq!(grade(&[[1.0, 0.0], [0.3, 0.9539392]]), Grade::RecordAgain);
    assert_eq!(grade(&[[1.0, 0.0]]), Grade::RecordAgain);
}

struct Host {
    built: Result<(), String>,
    sepformer: Option<PathBuf>,
    ecapa: Result<PathBuf, String>,
    tse: Option<PathBuf>,
    there: bool,
    opened: Result<(), OpenFailure>,
    config: RefCell<Option<(EmbeddingPool, SessionConfig)>>,
}

fn host() -> Host {
    Host {
        built: Ok(()),
        sepformer: None,
        ecapa: Ok(PathBuf::from("ecapa.onnx")),
        tse: None,
        there: true,
        opened: Ok(()),
        config: RefCell::new(None),
    }
}

fn failure(message: &str, controls_reset: bool) -> Result<(), OpenFailure> {
    Err(OpenFailure {
        message: message.to_string(),
        controls_reset,
    })
}

fn start(s: &mut AppState, h: &Host) {
    s.start(
        || h.built.clone(),
        || Some(PathBuf::from("dfn3.onnx")),
        || h.sepformer.clone(),
        || h.ecapa.clone(),
        || Some(PathBuf::from("overlap.onnx")),
        || h.tse.clone(),
        |_: &PathBuf| h.there,
        |p: &PathBuf| p.display().to_string(),
        |p: EmbeddingPool, c: SessionConfig| {
            *h.config.borrow_mut() = Some((p, c));
            h.opened.clone()
        },
    );
}

fn enrolled() -> AppState {
    let mut s = fresh();
    s.store_pool(
        pool(&[[1.0, 0.0], [0.9, 0.1]]),
        EnrollmentOrigin::Mic { secs: 20 },
    );
    s
}

#[test]
fn a_session_needs_a_profile() {
    let mut s = fresh();
    let h = host();
    start(&mut s, &h);
    assert_eq!(s.last_error.as_deref(), Some("enrol a voice first"));
    assert!(!s.is_running() && h.config.borrow().is_none());
}

#[test]
fn a_session_opens_with_everything_that_is_there() {
    let mut s = enrolled();
    s.selected_input = Some("Mic".to_string());
    s.last_error = Some("old".to_string());
    let h = Host {
        tse: Some(PathBuf::from("tse.onnx")),
        ..host()
    };
    start(&mut s, &h);
    assert!(s.is_running() && s.last_error.is_none());
    assert_eq!(s.tse_onnx_path, Some(PathBuf::from("tse.onnx")));
    let taken = h.config.borrow_mut().take();
    let (used, config) = taken.unwrap();
    assert_eq!(used.anchors().len(), 2);
    assert_eq!(config.input_device.as_deref(), Some("Mic"));
    assert_eq!(config.output_device, None);
    assert_eq!(config.dfn3_onnx_path, Some(PathBuf::from("dfn3.onnx")));
    assert_eq!(config.overlap_onnx_path, Some(PathBuf::from("overlap.onnx")));
    assert_eq!(
        config.streaming.pipeline.tse,
        Some(PathBuf::from("tse.onnx"))
    );
    assert_eq!(config.streaming.gate, gate());
    assert_eq!(config.streaming.audio_sample_rate, 48_000);
    assert_eq!(f(config.streaming.overlap_wet_dry_alpha), 1.0);
    assert_eq!(f(config.streaming.overlap_hold_on_ms), 750.0);
    assert_eq!(f(config.streaming.overlap_hold_off_ms), 1250.0);
    assert!(config.gate_tuning.is_some() && config.speaker_embedding_onnx_path.is_none());
    assert_eq!(config.input_channel, ChannelStrategy::Average);
    // A second start does nothing.
    start(&mut s, &h);
    assert!(h.config.borrow().is_none());
}

#[test]
fn the_separator_runs_alone() {
    let mut s = enrolled();
    let h = Host {
        sepformer: Some(PathBuf::from("sepformer.onnx")),
        tse: Some(PathBuf::from("tse.onnx")),
        ..host()
    };
    start(&mut s, &h);
    assert_eq!(
        s.last_error.as_deref(),
        Some("強力2話者分離を使うには、新しい20秒方式で声紋を再登録してください。")
    );
    s.separator_pool = Some(pool(&[[0.0, 1.0]]));
    start(&mut s, &h);
    assert!(s.is_running());
    let taken = h.config.borrow_mut().take();
    let (_, config) = taken.unwrap();
    assert_eq!(config.overlap_onnx_path, None);
    assert_eq!(config.streaming.pipeline.tse, None);
    assert_eq!(f(config.streaming.gate.theta_pass), 0.0);
    assert!(!config.streaming.gate.adaptive_theta);
    assert_eq!(f(config.streaming.gate.hangover_ms), 500.0);
    assert!(config.gate_tuning.is_none());
    assert_eq!(
        config.speaker_embedding_onnx_path,
        Some(PathBuf::from("ecapa.onnx"))
    );
    assert_eq!(config.speaker_selection_pool.unwrap().anchors().len(), 1);
    assert_eq!(s.tse_onnx_path, None);
}

#[test]
fn a_session_starts_with_fresh_diagnostics() {
    let shown = |s: &AppState| {
        (
            f(s.gate_tuning.last_score()),
            f(s.gate_tuning.effective_threshold()),
        )
    };
    let mut s = enrolled();
    s.gate_tuning.set_threshold(b(0.6));
    s.gate_tuning.update_diagnostics(b(0.7), b(0.65));
    start(
        &mut s,
        &Host {
            built: Err("gone".to_string()),
            ..host()
        },
    );
    assert_eq!(shown(&s), (0.7, 0.65));
    start(
        &mut s,
        &Host {
            opened: failure("no such device", false),
            ..host()
        },
    );
    assert_eq!(shown(&s), (0.7, 0.65));
    start(&mut s, &host());
    assert!(s.is_running());
    assert_eq!(shown(&s), (0.0, 0.6));

    // What fails late fails after that.
    let mut s = enrolled();
    s.gate_tuning.set_threshold(b(0.6));
    s.gate_tuning.update_diagnostics(b(0.7), b(0.65));
    start(
        &mut s,
        &Host {
            opened: failure("engine", true),
            ..host()
        },
    );
    assert!(!s.is_running());
    assert_eq!(shown(&s), (0.0, 0.6));

    // Under the separator the speaker gate is not watched.
    let mut s = enrolled();
    s.separator_pool = Some(pool(&[[0.0, 1.0]]));
    s.gate_tuning.update_diagnostics(b(0.7), b(0.65));
    start(
        &mut s,
        &Host {
            sepformer: Some(PathBuf::from("sepformer.onnx")),
            ..host()
        },
    );
    assert!(s.is_running());
    assert_eq!(shown(&s), (0.7, 0.65));
}

#[test]
fn a_session_that_cannot_be_opened_records_an_error() {
    let fails = |h: Host, message: &str| {
        let mut s = enrolled();
        s.separator_pool = Some(pool(&[[0.0, 1.0]]));
        start(&mut s, &h);
        assert!(!s.is_running());
        assert_eq!(s.last_error.as_deref(), Some(message));
        assert_eq!(s.pool_anchors, 2);
    };
    fails(
        Host {
            built: Err("VAD load: gone".to_string()),
            ..host()
        },
        "VAD load: gone",
    );
    fails(
        Host {
            sepformer: Some(PathBuf::from("s")),
            ecapa: Err("gone".to_string()),
            ..host()
        },
        "2話者分離用のECAPA ONNXを読み込めません: gone",
    );
    fails(
        Host {
            tse: Some(PathBuf::from("tse.onnx")),
            there: false,
            ..host()
        },
        "TSE ONNX path does not exist: tse.onnx",
    );
    fails(
        Host {
            opened: failure("no such device", false),
            ..host()
        },
        "open live session: no such device",
    );
}

fn stats(n: u64) -> LiveSessionStats {
    LiveSessionStats {
        samples_processed: n,
        input_overruns: 0,
        output_underruns: 0,
    }
}

#[test]
fn stopping_keeps_the_last_counters() {
    let mut s = enrolled();
    s.stop(|| panic!("nothing runs"));
    s.running = true;
    s.last_error = Some("old".to_string());
    s.stop(|| Ok(stats(7)));
    assert!(!s.is_running() && s.last_error.is_none());
    assert_eq!(s.last_stats, stats(7));
    s.running = true;
    s.stop(|| Err("worker died".to_string()));
    assert_eq!(s.last_error.as_deref(), Some("stop session: worker died"));
    assert_eq!(s.last_stats, stats(7));
}

#[test]
fn worker_failures_stay_visible_after_the_session_has_stopped() {
    let mut s = enrolled();
    s.poll_session(stats(1), None, || panic!("nothing runs"));
    assert_eq!(s.last_stats, stats(0));
    s.running = true;
    s.poll_session(stats(2), None, || panic!("no reason to stop"));
    assert!(s.is_running());
    assert_eq!(s.last_stats, stats(2));
    s.poll_session(
        stats(3),
        Some(SessionEvent::Error("model is gone".to_string())),
        || Ok(stats(4)),
    );
    assert!(!s.is_running());
    assert_eq!(s.last_stats, stats(4));
    assert_eq!(
        s.last_error.as_deref(),
        Some("pipeline error: model is gone")
    );
}

#[test]
fn controls_are_kept_for_the_next_launch() {
    let mut s = fresh();
    let file = s.set_gate_preset(b(0.36), b(700.0), b(180.0), &number);
    assert_eq!(file, "v2 0.360 700 180\n");
    assert_eq!(f(s.gate_cfg.theta_pass), 0.36);
    assert_eq!(f(s.gate_cfg.hangover_ms), 700.0);
    assert_eq!(f(s.gate_cfg.release_ms), 180.0);
    s.gate_tuning.set_threshold(b(2.0));
    assert_eq!(s.save_gate_settings(&number), "v2 0.950 700 180\n");
    assert_eq!(f(s.gate_cfg.theta_pass), 0.95);
    s.separator_tuning.set_threshold(b(0.25));
    assert_eq!(s.save_separator_threshold(&number), "0.250\n");
}

#[test]
fn a_fetched_extractor_is_used_from_then_on() {
    let mut s = fresh();
    let there = |_: &PathBuf| true;
    assert!(!s.tse_available(&there));
    s.fetch_tse_from_hf(Err("offline".to_string()));
    assert_eq!(
        s.last_error.as_deref(),
        Some("HuggingFace fetch failed: offline")
    );
    s.fetch_tse_from_hf(Ok(PathBuf::from("tse.onnx")));
    assert!(s.last_error.is_none());
    assert!(s.tse_available(&there));
    assert!(!s.tse_available(&|_: &PathBuf| false));
}

#[test]
fn meters_rest_while_nothing_runs() {
    let mut s = fresh();
    assert_eq!(f(s.input_rms(b(0.5))), 0.0);
    assert_eq!(f(s.output_rms(b(0.5))), 0.0);
    assert!(!s.gate_on(true));
    s.running = true;
    assert_eq!(f(s.input_rms(b(0.5))), 0.5);
    assert_eq!(f(s.output_rms(b(0.25))), 0.25);
    assert!(s.gate_on(true));
    assert!(!s.gate_on(false));
}

#[test]
fn a_dropped_profile_leaves_nothing_behind() {
    let mut s = enrolled();
    s.fail("broken".to_string());
    assert_eq!(s.pool_anchors, 2);
    s.clear_pool();
    assert!(s.pool.is_none() && s.separator_pool.is_none());
    assert!(matches!(s.origin, EnrollmentOrigin::Nowhere));
    assert_eq!(s.pool_anchors, 0);
    assert!(s.enrollment_quality.is_none());
    assert_eq!(s.last_error.as_deref(), Some("broken"));
}
