use mellonella::binary32::Binary32;
use mellonella::gating::cos_similarity;
use mellonella::nontarget::OtherSpeakerConfig;
use mellonella::nontarget::OtherSpeakers;

fn b(x: f32) -> Binary32 {
    Binary32 { bits: x.to_bits() }
}

fn f(x: Binary32) -> f32 {
    f32::from_bits(x.bits)
}

fn v(xs: &[f32]) -> Vec<Binary32> {
    xs.iter().map(|&x| b(x)).collect()
}

fn unit(dim: usize, hot: usize) -> Vec<Binary32> {
    let mut x = vec![0.0; dim];
    x[hot] = 1.0;
    v(&x)
}

/// A window mostly along `hot` with a little of `other` mixed in, so repeated
/// draws are similar to each other but not identical.
fn near(dim: usize, hot: usize, other: usize, mix: f32) -> Vec<Binary32> {
    let mut x = vec![0.0; dim];
    x[hot] = 1.0 - mix;
    x[other] = mix;
    v(&x)
}

/// Unit vector whose cosine against axis 0 is exactly `target_score`.
fn at_target_score(target_score: f32) -> Vec<Binary32> {
    v(&[target_score, (1.0 - target_score * target_score).sqrt()])
}

#[test]
fn empty_model_scores_zero_and_never_blocks() {
    let m = OtherSpeakers::new();
    assert!(m.is_empty());
    assert!((f(m.score(&unit(8, 0)))).abs() < 1e-6);
}

#[test]
fn learns_a_repeated_other_speaker() {
    let cfg = OtherSpeakerConfig::default();
    let mut m = OtherSpeakers::new();
    let profile = |e: &[Binary32]| cos_similarity(e, &unit(8, 0));
    for k in 0..6_u8 {
        let w = near(8, 1, 2, 0.05 + 0.01 * f32::from(k));
        m.observe(&w, b(0.20), b(0.45), &cfg, profile);
    }
    assert_eq!(m.len(), 1, "one repeated speaker is one cluster");
    assert!(
        f(m.score(&near(8, 1, 2, 0.07))) > 0.9,
        "a further window from that speaker must match the cluster"
    );
    assert!(
        f(m.score(&unit(8, 0))) < 0.2,
        "the enrolled direction must not match it"
    );
}

#[test]
fn never_learns_windows_the_gate_would_pass() {
    let cfg = OtherSpeakerConfig::default();
    let mut m = OtherSpeakers::new();
    let profile = |e: &[Binary32]| cos_similarity(e, &unit(8, 0));
    for _ in 0..10 {
        m.observe(&unit(8, 1), b(0.60), b(0.45), &cfg, profile);
    }
    assert!(m.is_empty());
}

#[test]
fn guard_rejects_a_seed_that_looks_like_the_enrolled_speaker() {
    let cfg = OtherSpeakerConfig::default();
    let mut m = OtherSpeakers::new();
    let profile = |_: &[Binary32]| b(1.0);
    for _ in 0..10 {
        m.observe(&unit(8, 1), b(0.10), b(0.45), &cfg, profile);
    }
    assert!(
        m.is_empty(),
        "the guard must veto every seed near the enrolled profile"
    );
}

#[test]
fn isolated_bad_windows_do_not_seed_a_cluster() {
    let cfg = OtherSpeakerConfig::default();
    let mut m = OtherSpeakers::new();
    let profile = |e: &[Binary32]| cos_similarity(e, &unit(8, 0));
    for _ in 0..10 {
        m.observe(&unit(8, 1), b(0.10), b(0.45), &cfg, profile);
        m.observe(&unit(8, 0), b(0.90), b(0.45), &cfg, profile);
    }
    assert!(m.is_empty());
}

#[test]
fn disagreeing_windows_do_not_seed_a_cluster() {
    let cfg = OtherSpeakerConfig::default();
    let mut m = OtherSpeakers::new();
    let profile = |e: &[Binary32]| cos_similarity(e, &unit(8, 0));
    for k in 0..12 {
        let w = unit(8, 1 + usize::from(k % 2 == 0));
        m.observe(&w, b(0.10), b(0.45), &cfg, profile);
    }
    assert!(m.is_empty());
}

#[test]
fn separate_speakers_get_separate_clusters() {
    let cfg = OtherSpeakerConfig::default();
    let mut m = OtherSpeakers::new();
    let profile = |e: &[Binary32]| cos_similarity(e, &unit(8, 0));
    for _ in 0..4 {
        m.observe(&near(8, 1, 5, 0.05), b(0.20), b(0.45), &cfg, profile);
    }
    for _ in 0..4 {
        m.observe(&near(8, 3, 6, 0.05), b(0.20), b(0.45), &cfg, profile);
    }
    assert_eq!(m.len(), 2);
}

#[test]
fn cluster_budget_is_enforced() {
    let cfg = OtherSpeakerConfig {
        max_clusters: 2,
        ..OtherSpeakerConfig::default()
    };
    let mut m = OtherSpeakers::new();
    let profile = |e: &[Binary32]| cos_similarity(e, &unit(16, 0));
    for axis in [1_usize, 3, 5, 7] {
        for _ in 0..4 {
            m.observe(&near(16, axis, axis + 8, 0.05), b(0.20), b(0.45), &cfg, profile);
        }
    }
    assert_eq!(m.len(), 2);
}

#[test]
fn zero_cluster_budget_disables_learning_without_panicking() {
    let cfg = OtherSpeakerConfig {
        max_clusters: 0,
        ..OtherSpeakerConfig::default()
    };
    let mut m = OtherSpeakers::new();
    let profile = |e: &[Binary32]| cos_similarity(e, &unit(8, 0));
    for _ in 0..10 {
        m.observe(&unit(8, 1), b(0.10), b(0.45), &cfg, profile);
    }
    assert!(m.is_empty());
}

#[test]
fn conflict_forget_window_overflow_is_saturated() {
    let cfg = OtherSpeakerConfig {
        conflict_forget_windows: u32::MAX,
        ..OtherSpeakerConfig::default()
    };
    let mut m = OtherSpeakers::new();
    let target = unit(2, 0);
    let profile = |e: &[Binary32]| cos_similarity(e, &target);
    let other = at_target_score(0.30);
    for _ in 0..3 {
        m.observe(&other, b(0.30), b(0.45), &cfg, profile);
    }
    assert_eq!(m.len(), 1);
    let score = m.score_for_gate(&at_target_score(0.50), b(0.50), b(0.45), b(0.08), &cfg);
    assert!(f(score) > 0.90);
    assert_eq!(m.len(), 1);
}

#[test]
fn persistent_target_conflict_forgets_a_mislearned_owner_cluster() {
    let cfg = OtherSpeakerConfig::default();
    let mut m = OtherSpeakers::new();
    let target = unit(2, 0);
    let profile = |e: &[Binary32]| cos_similarity(e, &target);
    let low_owner = at_target_score(0.30);
    for _ in 0..3 {
        m.observe(&low_owner, b(0.30), b(0.45), &cfg, profile);
    }
    assert_eq!(m.len(), 1, "the synthetic owner condition was mislearned");

    let recovered_owner = at_target_score(0.50);
    for _ in 1..cfg.conflict_forget_windows {
        let other = m.score_for_gate(&recovered_owner, b(0.50), b(0.45), b(0.08), &cfg);
        assert!(
            f(other) > 0.90,
            "the conflicting cluster should still block briefly"
        );
    }
    let other = m.score_for_gate(&recovered_owner, b(0.50), b(0.45), b(0.08), &cfg);
    assert!(
        f(other).abs() < f32::EPSILON,
        "the mislearned owner cluster must be forgotten"
    );
    assert!(m.is_empty());
}

#[test]
fn isolated_target_spikes_do_not_forget_a_real_other_speaker() {
    let cfg = OtherSpeakerConfig::default();
    let mut m = OtherSpeakers::new();
    let target = unit(2, 0);
    let profile = |e: &[Binary32]| cos_similarity(e, &target);
    let other_speaker = at_target_score(0.30);
    for _ in 0..3 {
        m.observe(&other_speaker, b(0.30), b(0.45), &cfg, profile);
    }
    assert_eq!(m.len(), 1);

    let spike = at_target_score(0.50);
    for _ in 0..20 {
        for _ in 0..2 {
            assert!(f(m.score_for_gate(&spike, b(0.50), b(0.45), b(0.08), &cfg)) > 0.90);
        }
        for _ in 0..4 {
            assert!(f(m.score_for_gate(&other_speaker, b(0.30), b(0.45), b(0.08), &cfg)) > 0.90);
        }
    }
    assert_eq!(
        m.len(),
        1,
        "isolated spikes must not erase the impostor model"
    );
}

#[test]
fn an_owner_straddling_the_threshold_is_not_locked_out_for_the_session() {
    let cfg = OtherSpeakerConfig::default();
    let mut m = OtherSpeakers::new();
    let target = unit(2, 0);
    let profile = |e: &[Binary32]| cos_similarity(e, &target);

    let low_owner = at_target_score(0.30);
    for _ in 0..3 {
        m.observe(&low_owner, b(0.30), b(0.45), &cfg, profile);
    }
    assert_eq!(m.len(), 1, "the synthetic owner condition was mislearned");

    let over = at_target_score(0.50);
    let under = at_target_score(0.44);
    let mut windows = 0_u32;
    while !m.is_empty() {
        let (emb, score) = if windows % 2 == 0 {
            (&over, 0.50)
        } else {
            (&under, 0.44)
        };
        m.score_for_gate(emb, b(score), b(0.45), b(0.08), &cfg);
        windows += 1;
        assert!(
            windows < 100,
            "a straddling owner must not be blocked indefinitely"
        );
    }
    assert!(
        windows <= 4 * cfg.conflict_forget_windows,
        "recovery took {windows} windows, expected a small multiple of \
             {}",
        cfg.conflict_forget_windows
    );
}

#[test]
fn evicting_a_cluster_does_not_hand_its_evidence_to_another() {
    let cfg = OtherSpeakerConfig {
        max_clusters: 2,
        ..OtherSpeakerConfig::default()
    };
    let mut m = OtherSpeakers::new();
    let profile = |e: &[Binary32]| cos_similarity(e, &unit(16, 0));
    for axis in [1_usize, 3] {
        for _ in 0..4 {
            m.observe(&near(16, axis, axis + 8, 0.05), b(0.20), b(0.45), &cfg, profile);
        }
    }
    assert_eq!(m.len(), 2);

    let contested = near(16, 3, 11, 0.05);
    for _ in 1..cfg.conflict_forget_windows {
        m.score_for_gate(&contested, b(0.50), b(0.45), b(0.08), &cfg);
    }

    for _ in 0..4 {
        m.observe(&near(16, 5, 13, 0.05), b(0.20), b(0.45), &cfg, profile);
    }
    assert_eq!(m.len(), 2);
    let survivors = m.len();
    m.score_for_gate(&near(16, 5, 13, 0.05), b(0.50), b(0.45), b(0.08), &cfg);
    assert_eq!(
        m.len(),
        survivors,
        "evidence banked before the eviction must not retire a cluster"
    );
}

#[test]
fn reset_clears_everything() {
    let cfg = OtherSpeakerConfig::default();
    let mut m = OtherSpeakers::new();
    let profile = |e: &[Binary32]| cos_similarity(e, &unit(8, 0));
    for _ in 0..4 {
        m.observe(&near(8, 1, 2, 0.05), b(0.20), b(0.45), &cfg, profile);
    }
    assert_eq!(m.len(), 1);
    m.reset();
    assert!(m.is_empty());
    assert!(f(m.score(&near(8, 1, 2, 0.05))).abs() < 1e-6);
}

#[test]
fn a_cluster_opens_with_the_third_agreeing_window() {
    let cfg = OtherSpeakerConfig::default();
    let mut m = OtherSpeakers::new();
    let profile = |_: &[Binary32]| b(0.0);
    // The first window begins a run, the second is kept as a candidate, and
    // only the third agrees with it.
    for _ in 0..2 {
        m.observe(&unit(4, 1), b(0.10), b(0.45), &cfg, profile);
        assert!(m.is_empty());
    }
    m.observe(&unit(4, 1), b(0.10), b(0.45), &cfg, profile);
    assert_eq!(m.len(), 1);
    assert_eq!(f(m.score(&unit(4, 1))), 1.0);
    assert_eq!(f(m.score(&v(&[-1.0, -1.0, 0.0, 0.0]))), 0.0);
}

#[test]
fn a_patience_of_zero_windows_is_one() {
    let cfg = OtherSpeakerConfig {
        conflict_forget_windows: 0,
        ..OtherSpeakerConfig::default()
    };
    let mut m = OtherSpeakers::new();
    let profile = |_: &[Binary32]| b(0.0);
    for _ in 0..3 {
        m.observe(&unit(2, 1), b(0.10), b(0.45), &cfg, profile);
    }
    assert_eq!(m.len(), 1);
    // Zero is treated as one: the first conflict forgets the cluster.
    let score = m.score_for_gate(&unit(2, 1), b(0.50), b(0.45), b(0.08), &cfg);
    assert_eq!(f(score), 0.0);
    assert!(m.is_empty());
}
