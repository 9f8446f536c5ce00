use mellonella::binary32::Binary32;
use mellonella::gating::GateConfig;
use mellonella::settings::default_gate_config;
use mellonella::settings::load_gate_config;
use mellonella::settings::load_separator_threshold;
use mellonella::settings::write_settings;
use mellonella::settings::DEFAULT_GATE_HANGOVER_MS;
use mellonella::settings::DEFAULT_GATE_RELEASE_MS;
use mellonella::settings::DEFAULT_GATE_THRESHOLD;
use mellonella::text::characters;
use mellonella::text::contains_ignoring_case;
use mellonella::text::decimal;
use mellonella::text::enclosed;
use mellonella::text::joined;
use mellonella::text::parse_count;
use mellonella::text::split_words;
use mellonella::text::trim;

fn b(x: f32) -> Binary32 {
    Binary32 { bits: x.to_bits() }
}

fn f(x: Binary32) -> f32 {
    f32::from_bits(x.bits)
}

fn base() -> GateConfig {
    GateConfig {
        theta_pass: b(0.30),
        adaptive_theta: true,
        use_as_norm: true,
        hangover_ms: b(200.0),
        hangover_floor_frac: b(0.5),
        release_ms: b(80.0),
        attack_ms: b(10.0),
        theta_f0: b(0.5),
        other_speaker_margin: b(0.08),
    }
}

fn number(word: &str) -> Option<Binary32> {
    word.parse::<f32>().ok().map(b)
}

fn load(settings: Option<&str>, legacy: Option<&str>) -> GateConfig {
    load_gate_config(base(), settings, legacy, &number)
}

#[test]
fn legacy_voiceprint_threshold_is_clamped_to_the_new_safe_scale() {
    let config = load(None, Some("0.398\n"));
    assert_eq!(config.theta_pass.bits, DEFAULT_GATE_THRESHOLD);
    assert_eq!(config.hangover_ms.bits, DEFAULT_GATE_HANGOVER_MS);
    assert_eq!(config.release_ms.bits, DEFAULT_GATE_RELEASE_MS);
}

#[test]
fn versioned_gate_settings_preserve_a_user_tuned_threshold() {
    let config = load(Some("v2 0.398 650 140\n"), None);
    assert!((f(config.theta_pass) - 0.398).abs() < f32::EPSILON);
    assert!((f(config.hangover_ms) - 650.0).abs() < f32::EPSILON);
    assert!((f(config.release_ms) - 140.0).abs() < f32::EPSILON);
}

#[test]
fn unversioned_gate_settings_keep_stricter_values_but_clamp_looser_ones() {
    assert!((f(load(Some("0.600 650 140\n"), None).theta_pass) - 0.600).abs() < f32::EPSILON);
    assert_eq!(
        load(Some("0.300 650 140\n"), None).theta_pass.bits,
        DEFAULT_GATE_THRESHOLD
    );
}

#[test]
fn nothing_persisted_means_the_defaults() {
    let config = load(None, None);
    assert_eq!(config, default_gate_config(base()));
    assert_eq!(f(config.theta_pass), 0.45);
    assert_eq!(f(config.hangover_ms), 500.0);
    assert_eq!(f(config.release_ms), 120.0);
    assert!(!config.adaptive_theta);
    assert!(config.use_as_norm);
    assert_eq!(f(config.attack_ms), 10.0);
}

#[test]
fn a_damaged_settings_file_falls_back_as_a_whole() {
    let default = default_gate_config(base());
    for text in [
        "",
        "v3 0.5 650 140",
        "v2",
        "v2 0.5 650",
        "v2 0.5 x 650 140",
        "v2 0.9 650 140",
        "v2 0.5 1300 140",
        "v2 0.5 650 20",
        "0.10 650 140",
        "nan 650 140",
        "vx 0.5 650 140",
    ] {
        assert_eq!(load(Some(text), None), default, "{text}");
    }
    // An older file then still counts.
    assert_eq!(f(load(Some("v3 0.5 650 140"), Some("0.7")).theta_pass), 0.7);
    assert_eq!(load(None, Some("0.9")), default);
    assert_eq!(load(None, Some("many")), default);
}

#[test]
fn the_ends_of_the_ranges_are_allowed() {
    let config = load(Some("v2 0.15 100 30"), None);
    assert_eq!(f(config.theta_pass), 0.15);
    assert_eq!(f(config.hangover_ms), 100.0);
    assert_eq!(f(config.release_ms), 30.0);
    let config = load(Some("v2 0.85 1200 400 extra"), None);
    assert_eq!(f(config.theta_pass), 0.85);
    assert_eq!(f(config.hangover_ms), 1200.0);
    assert_eq!(f(config.release_ms), 400.0);
}

#[test]
fn saved_settings_come_back() {
    let text = write_settings("0.398", "650", "140");
    assert_eq!(text, "v2 0.398 650 140\n");
    let config = load(Some(&text), Some("0.8"));
    assert_eq!(f(config.theta_pass), 0.398);
    assert_eq!(f(config.hangover_ms), 650.0);
    assert_eq!(f(config.release_ms), 140.0);
}

#[test]
fn the_separator_threshold_falls_back_to_its_default() {
    assert_eq!(f(load_separator_threshold(Some("0.420\n"), &number)), 0.42);
    assert_eq!(f(load_separator_threshold(Some(" 0.05 "), &number)), 0.05);
    for bad in [None, Some(""), Some("0.99"), Some("0.01"), Some("x")] {
        assert_eq!(f(load_separator_threshold(bad, &number)), 0.5);
    }
}

#[test]
fn words_are_split_at_whitespace() {
    assert_eq!(
        split_words("  v2\t0.4\u{3000}650\n140 "),
        vec!["v2", "0.4", "650", "140"]
    );
    assert!(split_words(" \n").is_empty());
    assert!(split_words("").is_empty());
    assert_eq!(trim(" \t声 紋\n"), "声 紋");
    assert_eq!(trim("x"), "x");
    assert_eq!(trim("  "), "");
}

#[test]
fn counts_are_written_and_read() {
    for n in [0u64, 7, 10, 48_000, u64::MAX] {
        assert_eq!(decimal(n), n.to_string());
    }
    assert_eq!(parse_count("48000"), Some(48_000));
    assert_eq!(parse_count("+7"), Some(7));
    assert_eq!(parse_count("007"), Some(7));
    assert_eq!(parse_count("18446744073709551615"), Some(usize::MAX));
    assert_eq!(parse_count("18446744073709551616"), None);
    for bad in ["", "+", "-1", " 1", "1 ", "1.0", "x"] {
        assert_eq!(parse_count(bad), None, "{bad}");
    }
}

#[test]
fn texts_are_searched_without_regard_to_case() {
    assert!(contains_ignoring_case("HyperX QuadCast", "quadcast"));
    assert!(contains_ignoring_case("ÄPFEL", "äpf"));
    assert!(contains_ignoring_case("any", ""));
    assert!(!contains_ignoring_case("mic", "microphone"));
    assert!(!contains_ignoring_case("", "x"));
}

#[test]
fn texts_are_put_together() {
    assert_eq!(joined("声", "紋"), "声紋");
    assert_eq!(enclosed("（", "x", "）"), "（x）");
    assert_eq!(characters("aあ"), vec!['a', 'あ']);
}

#[test]
fn exactly_the_white_space_characters_separate_words() {
    let listed = |n: u32| {
        matches!(
            n,
            0x09..=0x0d | 0x20 | 0x85 | 0xa0 | 0x1680 | 0x2000..=0x200a
                | 0x2028 | 0x2029 | 0x202f | 0x205f | 0x3000
        )
    };
    for n in 0..=0xffff_u32 {
        if let Some(c) = char::from_u32(n) {
            let words = split_words(&format!("a{c}b")).len();
            assert_eq!(words, if listed(n) { 2 } else { 1 }, "{n:#x}");
        }
    }
}

#[test]
fn saved_controls_come_back() {
    for (t, h, r) in [
        (0.398_f32, 650.0_f32, 140.0_f32),
        (0.15, 100.0, 30.0),
        (0.85, 1_200.0, 400.0),
        (0.437_5, 333.3, 77.5),
        (0.150_000_1, 100.49, 399.6),
        (0.849_51, 1_199.5, 30.4),
    ] {
        let file = write_settings(&format!("{t:.3}"), &format!("{h:.0}"), &format!("{r:.0}"));
        let gate = load(Some(&file), Some("0.7"));
        assert!((f(gate.theta_pass) - t).abs() <= 0.000_500_1, "{t}");
        assert!((f(gate.hangover_ms) - h).abs() <= 0.5, "{h}");
        assert!((f(gate.release_ms) - r).abs() <= 0.5, "{r}");
        if f(gate.hangover_ms) == h {
            assert_eq!((f(gate.theta_pass), f(gate.release_ms)), (t, r));
        }
        assert!(!gate.adaptive_theta);
    }
    for t in [0.05_f32, 0.5, 0.777, 0.95] {
        let file = format!("{t:.3}\n");
        assert_eq!(f(load_separator_threshold(Some(&file), &number)), t);
    }
}
