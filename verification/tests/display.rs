use mellonella::binary32::Binary32;
use mellonella::display::describe_quality;
use mellonella::display::extractor_label;
use mellonella::display::hides_on_close;
use mellonella::display::preset_controls;
use mellonella::display::quality_colour;
use mellonella::display::rms_to_bar;
use mellonella::display::selection_label;
use mellonella::display::suppressor_label;
use mellonella::display::tray_action;
use mellonella::display::Light;
use mellonella::display::Preset;
use mellonella::display::ScoreLine;
use mellonella::display::Section;
use mellonella::display::TrayAction;
use mellonella::display::TrayCommand;
use mellonella::enrollment::EmbeddingPool;
use mellonella::enrollment::EmbeddingPoolConfig;
use mellonella::gating::GateConfig;
use mellonella::separation::SeparatorTuning;
use mellonella::state::AppState;
use mellonella::state::EnrollmentOrigin;
use mellonella::state::Grade;
use mellonella::state::Quality;
use std::path::PathBuf;

fn b(x: f32) -> Binary32 {
    Binary32 { bits: x.to_bits() }
}

fn f(x: Binary32) -> f32 {
    f32::from_bits(x.bits)
}

fn number(x: Binary32, places: u32) -> String {
    format!("{:.1$}", f(x), places as usize)
}

fn state() -> AppState {
    let gate = GateConfig {
        theta_pass: b(0.45),
        adaptive_theta: false,
        use_as_norm: false,
        hangover_ms: b(500.0),
        hangover_floor_frac: b(0.5),
        release_ms: b(120.0),
        attack_ms: b(10.0),
        theta_f0: b(0.5),
        other_speaker_margin: b(0.08),
    };
    AppState::new(Vec::new(), Vec::new(), None, None, None, gate, b(0.5))
}

fn decibels(x: Binary32) -> Binary32 {
    b(20.0 * f(x).log10())
}

#[test]
fn meters_span_sixty_decibels() {
    assert_eq!(f(rms_to_bar(b(0.0), &decibels)), 0.0);
    assert_eq!(f(rms_to_bar(b(1e-6), &decibels)), 0.0);
    assert_eq!(f(rms_to_bar(b(1e-5), &decibels)), 0.0);
    assert_eq!(f(rms_to_bar(b(1.0), &decibels)), 1.0);
    assert_eq!(f(rms_to_bar(b(4.0), &decibels)), 1.0);
    assert_eq!(f(rms_to_bar(b(0.5), &|_: Binary32| b(-30.0))), 0.5);
}

#[test]
fn the_top_of_the_window_follows_the_state() {
    let mut s = state();
    assert_eq!(s.section(), Section::FirstRun);
    let mut pool = EmbeddingPool::new(EmbeddingPoolConfig::default());
    pool.add_anchors(vec![vec![b(1.0)]]);
    s.store_pool(pool, EnrollmentOrigin::Mic { secs: 20 });
    assert_eq!(s.section(), Section::Profile);
    s.recording = true;
    assert_eq!(s.section(), Section::Progress);
    assert!(s.is_busy() && !s.may_record());
    assert_eq!(s.repaint_after(), Some(100));
    s.recording = false;
    assert!(!s.is_busy() && s.may_record());
    assert_eq!(s.repaint_after(), None);
    s.running = true;
    assert!(s.is_busy() && !s.may_record());
    assert_eq!(s.repaint_after(), Some(100));
}

#[test]
fn the_profile_is_described() {
    let mut s = state();
    assert_eq!(s.profile_label(), "● 声紋: 本人の声");
    s.origin = EnrollmentOrigin::Mic { secs: 20 };
    assert_eq!(s.profile_label(), "● 声紋: 本人の声（20秒）");
    s.origin = EnrollmentOrigin::AutoLoaded(PathBuf::from("x"));
    assert_eq!(s.profile_label(), "● 声紋: 本人の声（保存済み）");
    s.pool_anchors = 12;
    assert_eq!(s.anchors_label(), "· 特徴点 12個");
    assert!(!s.shows_pitch());
    s.pool_f0_mu = b(120.4);
    s.pool_f0_sigma = b(19.6);
    assert!(s.shows_pitch());
    assert_eq!(s.pitch_label(&number), "· F0 μ=120 Hz σ=20 Hz");
}

#[test]
fn the_quality_is_described() {
    let quality = |grade| Quality {
        grade,
        consistency: b(0.615),
    };
    assert_eq!(
        describe_quality(quality(Grade::Good), &|_: Binary32, _: u32| "0.62".to_string()),
        "登録品質: 良好（声紋一貫度 0.62）"
    );
    assert_eq!(
        describe_quality(quality(Grade::Usable), &|_: Binary32, _: u32| "0.50".to_string()),
        "登録品質: 使用可能（声紋一貫度 0.50）"
    );
    let again = quality(Grade::RecordAgain);
    assert_eq!(
        describe_quality(again, &|_: Binary32, _: u32| "0.10".to_string()),
        "登録品質: 要再登録（声紋一貫度 0.10）"
    );
    assert_eq!(quality_colour(again).red, 220);
    assert_eq!(quality_colour(quality(Grade::Usable)).green, 200);
}

#[test]
fn the_light_follows_the_session() {
    let mut s = state();
    assert_eq!(s.light(true), Light::Stopped);
    assert_eq!(s.light(true).label(), "○ 停止");
    s.running = true;
    assert_eq!(s.light(true), Light::Passing);
    assert_eq!(s.light(true).label(), "● 本人音声");
    assert_eq!(s.light(false), Light::Suppressed);
    assert_eq!(s.light(false).label(), "○ 抑制中");
    assert_eq!(s.light(true).colour().green, 200);
    assert_eq!(s.light(false).colour().red, 160);
    assert_eq!(Light::Stopped.colour().blue, 96);
}

#[test]
fn scores_are_shown_while_a_session_runs() {
    let mut s = state();
    assert!(matches!(s.gate_score(&number), ScoreLine::Hidden));
    s.running = true;
    assert!(matches!(s.gate_score(&number), ScoreLine::Measuring));
    s.gate_tuning.update_diagnostics(b(0.5), b(0.45));
    match s.gate_score(&number) {
        ScoreLine::Score { passing, text } => {
            assert!(passing);
            assert_eq!(text, "現在の本人スコア: 0.50 / しきい値 0.45（通過）");
        }
        other => panic!("unexpected {other:?}"),
    }
    s.gate_tuning.update_diagnostics(b(-0.25), b(0.45));
    match s.gate_score(&number) {
        ScoreLine::Score { passing, text } => {
            assert!(!passing);
            assert_eq!(text, "現在の本人スコア: -0.25 / しきい値 0.45（抑制）");
        }
        other => panic!("unexpected {other:?}"),
    }
    s.separator_tuning = SeparatorTuning::new(b(0.5));
    assert!(matches!(s.separator_score(&number), ScoreLine::Hidden));
}

#[test]
fn presets_are_coherent() {
    let values = |p| {
        let (t, h, r) = preset_controls(p);
        (f(t), f(h), f(r))
    };
    assert_eq!(values(Preset::Smooth), (0.36, 700.0, 180.0));
    assert_eq!(values(Preset::Standard), (0.45, 500.0, 120.0));
    assert_eq!(values(Preset::Strict), (0.58, 300.0, 80.0));
}

#[test]
fn the_models_in_use_are_named() {
    assert_eq!(suppressor_label(true), "● ノイズ除去");
    assert_eq!(suppressor_label(false), "○ ノイズ除去モデル未設定");
    assert_eq!(extractor_label(true, true), "● 強力2話者分離（声紋選択）");
    assert_eq!(extractor_label(false, true), "● 標準の本人音声抽出");
    assert_eq!(extractor_label(false, false), "○ 本人音声の抽出モデル未設定");
    assert_eq!(selection_label(&None), "(既定)");
    assert_eq!(selection_label(&Some("Mic".to_string())), "Mic");
}

#[test]
fn the_tray_menu_starts_and_stops() {
    assert_eq!(tray_action(TrayCommand::Show, true), TrayAction::ShowWindow);
    assert_eq!(tray_action(TrayCommand::Toggle, true), TrayAction::Stop);
    assert_eq!(tray_action(TrayCommand::Toggle, false), TrayAction::Start);
    assert_eq!(tray_action(TrayCommand::Quit, false), TrayAction::StopAndClose);
    assert!(hides_on_close(true, true));
    assert!(!hides_on_close(true, false));
    assert!(!hides_on_close(false, true));
}
