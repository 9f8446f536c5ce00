use mellonella::binary32::Binary32;
use mellonella::enrollment::condition_groups;
use mellonella::enrollment::EmbeddingPool;
use mellonella::enrollment::EmbeddingPoolConfig;
use mellonella::enrollment::EnrollmentMetadata;
use mellonella::enrollment::PersistenceError;
use mellonella::enrollment::PoolPayload;
use mellonella::enrollment::MAX_CONDITION_GROUPS;
use mellonella::enrollment::PERSISTENCE_VERSION;
use mellonella::gating::cos_similarity;

fn b(x: f32) -> Binary32 {
    Binary32 { bits: x.to_bits() }
}

fn f(x: Binary32) -> f32 {
    f32::from_bits(x.bits)
}

fn v(xs: &[f32]) -> Vec<Binary32> {
    xs.iter().map(|&x| b(x)).collect()
}

fn back(xs: &[Binary32]) -> Vec<f32> {
    xs.iter().map(|&x| f(x)).collect()
}

fn unit(xs: &[f32]) -> Vec<Binary32> {
    let n: f32 = xs.iter().map(|x| x * x).sum::<f32>().sqrt();
    xs.iter().map(|x| b(x / n)).collect()
}

/// Reads the stored form out of a JSON text.
fn payload(body: &str) -> Result<PoolPayload, PersistenceError> {
    let value: serde_json::Value =
        serde_json::from_str(body).map_err(|e| PersistenceError::Json(e.to_string()))?;
    let row = |x: &serde_json::Value| -> Vec<Binary32> {
        x.as_array()
            .unwrap()
            .iter()
            .map(|n| b(n.as_f64().unwrap() as f32))
            .collect()
    };
    let rows = |x: Option<&serde_json::Value>| -> Vec<Vec<Binary32>> {
        x.and_then(|x| x.as_array())
            .map(|list| list.iter().map(row).collect())
            .unwrap_or_default()
    };
    let number = |x: Option<&serde_json::Value>| -> Binary32 {
        b(x.and_then(|x| x.as_f64()).unwrap_or(0.0) as f32)
    };
    let metadata = value.get("metadata");
    Ok(PoolPayload {
        version: value["version"].as_u64().unwrap() as u32,
        anchors: rows(value.get("anchors")),
        evidence: value
            .get("evidence")
            .filter(|x| !x.is_null())
            .map(row),
        auto_learn: rows(value.get("auto_learn")),
        metadata: EnrollmentMetadata {
            f0_mu: number(metadata.and_then(|m| m.get("f0_mu"))),
            f0_sigma: number(metadata.and_then(|m| m.get("f0_sigma"))),
        },
    })
}

/// Writes the stored form as a JSON text.
fn body(payload: &PoolPayload) -> String {
    let row = |xs: &[Binary32]| serde_json::Value::from(back(xs));
    let mut map = serde_json::Map::new();
    map.insert("version".into(), payload.version.into());
    map.insert(
        "anchors".into(),
        serde_json::Value::Array(payload.anchors.iter().map(|a| row(a)).collect()),
    );
    if let Some(e) = &payload.evidence {
        map.insert("evidence".into(), row(e));
    }
    let mut metadata = serde_json::Map::new();
    metadata.insert("f0_mu".into(), f(payload.metadata.f0_mu).into());
    metadata.insert("f0_sigma".into(), f(payload.metadata.f0_sigma).into());
    map.insert("metadata".into(), serde_json::Value::Object(metadata));
    serde_json::Value::Object(map).to_string()
}

#[test]
fn anchor_distance_zero_for_identical() {
    let mut pool = EmbeddingPool::new(EmbeddingPoolConfig::default());
    let anchor = unit(&[1.0, 0.0, 0.0, 0.0, 0.0, 0.0, 0.0, 0.0]);
    pool.add_anchors(vec![anchor.clone()]);
    let d = f(pool.anchor_distance(&anchor).unwrap());
    assert!(d.abs() < 1e-6, "d={d}");
}

#[test]
fn anchor_distance_none_when_empty() {
    let pool = EmbeddingPool::new(EmbeddingPoolConfig::default());
    assert!(pool.anchor_distance(&v(&[1.0, 0.0])).is_none());
}

#[test]
fn anchor_centroid_none_when_empty() {
    let pool = EmbeddingPool::new(EmbeddingPoolConfig::default());
    assert!(pool.anchor_centroid().is_none());
}

#[test]
fn anchor_centroid_single_anchor_is_verbatim() {
    let mut pool = EmbeddingPool::new(EmbeddingPoolConfig::default());
    let anchor = unit(&[0.3, -0.7, 0.1, 0.64]);
    pool.add_anchors(vec![anchor.clone()]);
    assert_eq!(pool.anchor_centroid().unwrap(), anchor.as_slice());
}

#[test]
fn anchor_centroid_is_elementwise_mean() {
    let mut pool = EmbeddingPool::new(EmbeddingPoolConfig::default());
    pool.add_anchors(vec![v(&[1.0, 3.0, -1.0]), v(&[3.0, 1.0, 1.0])]);
    assert_eq!(back(pool.anchor_centroid().unwrap()), &[2.0, 2.0, 0.0]);
}

#[test]
fn add_anchors_recomputes_centroid() {
    let mut pool = EmbeddingPool::new(EmbeddingPoolConfig::default());
    pool.add_anchors(vec![v(&[0.0, 2.0])]);
    assert_eq!(back(pool.anchor_centroid().unwrap()), &[0.0, 2.0]);
    pool.add_anchors(vec![v(&[2.0, 0.0])]);
    assert_eq!(back(pool.anchor_centroid().unwrap()), &[1.0, 1.0]);
}

#[test]
fn match_score_single_anchor_equals_cos_similarity() {
    let mut pool = EmbeddingPool::new(EmbeddingPoolConfig::default());
    let anchor = unit(&[1.0, 0.0, 0.0]);
    pool.add_anchors(vec![anchor.clone()]);
    let emb = unit(&[0.8, 0.6, 0.0]);
    assert!((f(pool.match_score(&emb)) - f(cos_similarity(&emb, &anchor))).abs() < 1e-6);
}

#[test]
fn match_score_takes_best_condition_over_centroid() {
    let mut pool = EmbeddingPool::new(EmbeddingPoolConfig::default());
    let a = unit(&[1.0, 1.0, 0.0]);
    let c = unit(&[1.0, -1.0, 0.0]);
    pool.add_anchors(vec![a.clone(), c]);
    let probe = a.clone();
    let centroid_score = f(cos_similarity(&probe, pool.anchor_centroid().unwrap()));
    let score = f(pool.match_score(&probe));
    assert!((score - 1.0).abs() < 1e-6, "score={score}");
    assert!(
        score > centroid_score,
        "per-condition max {score} must beat the centroid {centroid_score}"
    );
}

#[test]
fn many_similar_anchors_collapse_into_a_few_condition_means() {
    let mut pool = EmbeddingPool::new(EmbeddingPoolConfig::default());
    let anchors: Vec<Vec<Binary32>> = (0..12)
        .map(|i| {
            let mut x = vec![0.0_f32; 8];
            x[0] = 1.0;
            x[1 + i % 6] = 0.12 * (1.0 + (i % 3) as f32);
            v(&x)
        })
        .collect();
    pool.add_anchors(anchors);
    assert!(
        pool.condition_centroids().len() <= MAX_CONDITION_GROUPS,
        "12 same-condition anchors must not stay 12 references, got {}",
        pool.condition_centroids().len()
    );
    assert!(!pool.condition_centroids().is_empty());
}

#[test]
fn accepted_but_variable_enrollment_still_obeys_the_hard_group_cap() {
    let common = 0.60_f32.sqrt();
    let unique = 0.40_f32.sqrt();
    let anchors: Vec<Vec<Binary32>> = (0..12)
        .map(|i| {
            let mut x = vec![0.0_f32; 13];
            x[0] = common;
            x[i + 1] = unique;
            v(&x)
        })
        .collect();
    let mut pool = EmbeddingPool::new(EmbeddingPoolConfig::default());
    pool.add_anchors(anchors);
    assert!(
        (1..=MAX_CONDITION_GROUPS).contains(&pool.condition_centroids().len()),
        "accepted enrollment must collapse to the hard cap, got {} groups",
        pool.condition_centroids().len()
    );
}

#[test]
fn hard_group_cap_wins_over_many_distinct_registrations() {
    let mut pool = EmbeddingPool::new(EmbeddingPoolConfig::default());
    let anchors: Vec<Vec<Binary32>> = (0..8)
        .map(|axis| {
            let mut x = vec![0.0_f32; 8];
            x[axis] = 1.0;
            v(&x)
        })
        .collect();
    pool.add_anchors(anchors);
    assert_eq!(pool.condition_centroids().len(), MAX_CONDITION_GROUPS);
}

#[test]
fn distinct_registrations_survive_the_group_budget() {
    let mut pool = EmbeddingPool::new(EmbeddingPoolConfig::default());
    let mut anchors: Vec<Vec<Binary32>> = Vec::new();
    for i in 0..4_u8 {
        anchors.push(unit(&[1.0, 0.05 * f32::from(i), 0.0]));
        anchors.push(unit(&[0.0, 0.05 * f32::from(i), 1.0]));
    }
    pool.add_anchors(anchors);
    assert!(
        pool.condition_centroids().len() >= 2,
        "two distinct conditions must not be merged"
    );
    for probe in [unit(&[1.0, 0.0, 0.0]), unit(&[0.0, 0.0, 1.0])] {
        let s = f(pool.match_score(&probe));
        assert!(s > 0.95, "score={s} for a probe on an enrolled condition");
    }
}

#[test]
fn match_score_still_uses_centroid_when_it_wins() {
    let mut pool = EmbeddingPool::new(EmbeddingPoolConfig::default());
    let a = unit(&[1.0, 0.20, 0.0]);
    let c = unit(&[1.0, -0.20, 0.0]);
    pool.add_anchors(vec![a.clone(), c.clone()]);
    let probe = unit(&[1.0, 0.0, 0.0]);
    let best_anchor = f(cos_similarity(&probe, &a)).max(f(cos_similarity(&probe, &c)));
    let score = f(pool.match_score(&probe));
    assert!(
        score > best_anchor,
        "centroid score {score} should beat the best anchor {best_anchor}"
    );
}

#[test]
fn match_score_zero_for_empty_pool() {
    let pool = EmbeddingPool::new(EmbeddingPoolConfig::default());
    assert_eq!(f(pool.match_score(&v(&[1.0, 0.0, 0.0]))), 0.0);
}

#[test]
fn match_score_floors_negative_cosine_at_zero() {
    let mut pool = EmbeddingPool::new(EmbeddingPoolConfig::default());
    pool.add_anchors(vec![v(&[1.0, 0.0, 0.0])]);
    assert_eq!(f(pool.match_score(&v(&[-1.0, 0.0, 0.0]))), 0.0);
}

#[test]
fn can_auto_learn_rejects_far_embedding() {
    let mut pool = EmbeddingPool::new(EmbeddingPoolConfig {
        anchor_distance_threshold: b(0.4),
        ..EmbeddingPoolConfig::default()
    });
    pool.add_anchors(vec![unit(&[1.0, 0.0, 0.0])]);
    let near = unit(&[0.95, 0.05, 0.0]);
    let far = unit(&[0.0, 0.0, 1.0]);
    assert!(pool.can_auto_learn(&near));
    assert!(!pool.can_auto_learn(&far));
}

#[test]
fn adapt_rejects_without_anchor() {
    let mut pool = EmbeddingPool::new(EmbeddingPoolConfig::default());
    assert!(!pool.adapt(unit(&[1.0, 0.0])));
    assert!(pool.evidence().is_none());
    assert!(pool.adapted().is_none());
}

#[test]
fn bootstrap_seed_rejected_when_flag_disabled() {
    let mut pool = EmbeddingPool::new(EmbeddingPoolConfig {
        allow_bootstrap_from_runtime: false,
        ..EmbeddingPoolConfig::default()
    });
    assert!(!pool.bootstrap_seed(unit(&[1.0, 0.0, 0.0]), b(150.0), b(30.0)));
    assert!(pool.is_empty());
    assert_eq!(f(pool.metadata().f0_mu), 0.0);
}

#[test]
fn bootstrap_seed_rejected_when_pool_nonempty() {
    let mut pool = EmbeddingPool::new(EmbeddingPoolConfig {
        allow_bootstrap_from_runtime: true,
        ..EmbeddingPoolConfig::default()
    });
    pool.add_anchors(vec![unit(&[1.0, 0.0, 0.0])]);
    let before_count = pool.anchors().len();
    assert!(!pool.bootstrap_seed(unit(&[0.0, 1.0, 0.0]), b(200.0), b(50.0)));
    assert_eq!(pool.anchors().len(), before_count);
}

#[test]
fn bootstrap_seed_installs_first_anchor_and_f0() {
    let mut pool = EmbeddingPool::new(EmbeddingPoolConfig {
        allow_bootstrap_from_runtime: true,
        ..EmbeddingPoolConfig::default()
    });
    let seed = unit(&[1.0, 0.0, 0.0]);
    assert!(pool.bootstrap_seed(seed.clone(), b(175.0), b(35.0)));
    assert_eq!(pool.anchors().len(), 1);
    assert_eq!(f(pool.metadata().f0_mu), 175.0);
    assert_eq!(f(pool.metadata().f0_sigma), 35.0);
    let score = f(pool.match_score(&seed));
    assert!((score - 1.0).abs() < 1e-5);
}

#[test]
fn bootstrap_then_adapt_accumulates_evidence() {
    let mut pool = EmbeddingPool::new(EmbeddingPoolConfig {
        allow_bootstrap_from_runtime: true,
        anchor_distance_threshold: b(0.5),
        ..EmbeddingPoolConfig::default()
    });
    assert!(pool.bootstrap_seed(unit(&[1.0, 0.0, 0.0]), b(150.0), b(30.0)));
    let near = unit(&[0.95, 0.05, 0.0]);
    assert!(pool.adapt(near));
    assert!(pool.evidence().is_some());
}

#[test]
fn adapt_rejects_far_candidate() {
    let mut pool = EmbeddingPool::new(EmbeddingPoolConfig {
        anchor_distance_threshold: b(0.4),
        ..EmbeddingPoolConfig::default()
    });
    pool.add_anchors(vec![unit(&[1.0, 0.0, 0.0])]);
    assert!(!pool.adapt(unit(&[0.0, 0.0, 1.0])));
    assert!(pool.adapted().is_none());
}

#[test]
fn adapt_first_admission_seeds_evidence_verbatim() {
    let mut pool = EmbeddingPool::new(EmbeddingPoolConfig {
        anchor_distance_threshold: b(1.0),
        ..EmbeddingPoolConfig::default()
    });
    let anchor = unit(&[1.0, 0.0, 0.0]);
    pool.add_anchors(vec![anchor.clone()]);
    let cand = unit(&[0.0, 1.0, 0.0]);
    assert!(pool.adapt(cand.clone()));
    for (e, c) in pool.evidence().unwrap().iter().zip(cand.iter()) {
        assert!((f(*e) - f(*c)).abs() < 1e-6);
    }
}

#[test]
fn adapt_residual_pulls_toward_centroid() {
    let lambda = 0.25_f32;
    let mut pool = EmbeddingPool::new(EmbeddingPoolConfig {
        anchor_distance_threshold: b(1.0),
        adapt_residual_lambda: b(lambda),
        ..EmbeddingPoolConfig::default()
    });
    let centroid = vec![1.0_f32, 0.0, 0.0];
    pool.add_anchors(vec![v(&centroid)]);
    let cand = vec![0.0_f32, 1.0, 0.0];
    assert!(pool.adapt(v(&cand)));
    let adapted = back(pool.adapted().unwrap());
    assert_eq!(adapted.len(), 3);
    for ((a, &c), &x) in adapted.iter().zip(centroid.iter()).zip(cand.iter()) {
        let want = lambda * c + (1.0 - lambda) * x;
        assert!((a - want).abs() < 1e-6, "got {a}, want {want}");
    }
}

#[test]
fn the_residual_pull_has_its_ends() {
    for (lambda, want) in [(1.0, [1.0, 0.0]), (0.0, [0.0, 1.0])] {
        let mut pool = EmbeddingPool::new(EmbeddingPoolConfig {
            anchor_distance_threshold: b(1.0),
            adapt_residual_lambda: b(lambda),
            ..EmbeddingPoolConfig::default()
        });
        pool.add_anchors(vec![v(&[1.0, 0.0])]);
        assert!(pool.adapt(v(&[0.0, 1.0])));
        assert_eq!(back(pool.adapted().unwrap()), want);
    }
}

#[test]
fn adapt_ema_blends_later_admissions() {
    let eta = 0.5_f32;
    let mut pool = EmbeddingPool::new(EmbeddingPoolConfig {
        anchor_distance_threshold: b(1.0),
        adapt_rate: b(eta),
        ..EmbeddingPoolConfig::default()
    });
    pool.add_anchors(vec![v(&[1.0, 0.0])]);
    pool.adapt(v(&[0.0, 1.0]));
    pool.adapt(v(&[1.0, 1.0]));
    let evidence = back(pool.evidence().unwrap());
    assert!((evidence[0] - 0.5).abs() < 1e-6, "ev0={}", evidence[0]);
    assert!((evidence[1] - 1.0).abs() < 1e-6, "ev1={}", evidence[1]);
}

#[test]
fn match_score_maxes_centroid_with_adapted() {
    let mut pool = EmbeddingPool::new(EmbeddingPoolConfig {
        anchor_distance_threshold: b(1.0),
        adapt_residual_lambda: b(0.1),
        ..EmbeddingPoolConfig::default()
    });
    pool.add_anchors(vec![unit(&[1.0, 0.0, 0.0])]);
    let probe = unit(&[0.0, 1.0, 0.0]);
    assert!(f(pool.match_score(&probe)) < 1e-6);
    assert!(pool.adapt(probe.clone()));
    assert!(
        f(pool.match_score(&probe)) > 0.8,
        "score={}",
        f(pool.match_score(&probe))
    );
}

#[test]
fn iter_yields_anchors_then_adapted() {
    let mut pool = EmbeddingPool::new(EmbeddingPoolConfig {
        anchor_distance_threshold: b(1.0),
        ..EmbeddingPoolConfig::default()
    });
    pool.add_anchors(vec![unit(&[1.0, 0.0])]);
    assert_eq!(pool.iter().len(), 1);
    pool.adapt(unit(&[0.0, 1.0]));
    assert_eq!(pool.iter().len(), 2);
    assert_eq!(pool.len(), 2);
    assert_eq!(pool.iter()[0], pool.anchors()[0].as_slice());
    assert_eq!(pool.iter()[1], pool.adapted().unwrap());
}

#[test]
fn set_f0_stats_round_trip() {
    let mut pool = EmbeddingPool::new(EmbeddingPoolConfig::default());
    pool.set_f0_stats(b(180.0), b(25.0));
    let m = pool.metadata();
    assert_eq!(f(m.f0_mu), 180.0);
    assert_eq!(f(m.f0_sigma), 25.0);
}

#[test]
fn json_round_trip_preserves_state() {
    let cfg = EmbeddingPoolConfig {
        anchor_distance_threshold: b(1.0),
        ..EmbeddingPoolConfig::default()
    };
    let mut pool = EmbeddingPool::new(cfg);
    pool.add_anchors(vec![unit(&[1.0, 0.0])]);
    pool.set_f0_stats(b(180.0), b(25.0));
    assert!(pool.adapt(unit(&[0.0, 1.0])));

    let text = body(&PoolPayload::from_pool(&pool));
    let parsed: serde_json::Value = serde_json::from_str(&text).unwrap();
    assert_eq!(parsed["version"], 2);
    assert_eq!(parsed["anchors"].as_array().unwrap().len(), 1);
    assert_eq!(parsed["evidence"].as_array().unwrap().len(), 2);

    let restored = EmbeddingPool::from_payload(payload(&text).unwrap(), cfg).unwrap();
    assert_eq!(restored.anchors().len(), 1);
    assert_eq!(f(restored.metadata().f0_mu), 180.0);
    assert_eq!(f(restored.metadata().f0_sigma), 25.0);
    let (x, y) = (pool.evidence().unwrap(), restored.evidence().unwrap());
    for (x, y) in x.iter().zip(y.iter()) {
        assert!((f(*x) - f(*y)).abs() < 1e-6);
    }
    assert!(restored.adapted().is_some());
}

#[test]
fn from_json_rejects_unknown_version() {
    let cfg = EmbeddingPoolConfig::default();
    let text = r#"{"version": 99, "anchors": [], "metadata": {}}"#;
    match EmbeddingPool::from_payload(payload(text).unwrap(), cfg) {
        Err(PersistenceError::UnsupportedVersion(99)) => {}
        other => panic!("expected UnsupportedVersion(99), got {other:?}"),
    }
}

#[test]
fn from_json_migrates_v1_fifo_to_evidence_mean() {
    let saved = r#"{
            "version": 1,
            "anchors": [[1.0, 0.0]],
            "auto_learn": [[0.0, 2.0], [0.0, 4.0]],
            "metadata": {"f0_mu": 0.0, "f0_sigma": 0.0}
        }"#;
    let cfg = EmbeddingPoolConfig::default();
    let pool = EmbeddingPool::from_payload(payload(saved).unwrap(), cfg).unwrap();
    let evidence = back(pool.evidence().unwrap());
    assert!((evidence[0] - 0.0).abs() < 1e-6);
    assert!((evidence[1] - 3.0).abs() < 1e-6);
    assert!(pool.adapted().is_some());
}

#[test]
fn from_json_v1_without_fifo_has_no_evidence() {
    let saved = r#"{"version": 1, "anchors": [[1.0, 0.0]], "auto_learn": [], "metadata": {}}"#;
    let pool =
        EmbeddingPool::from_payload(payload(saved).unwrap(), EmbeddingPoolConfig::default())
            .unwrap();
    assert!(pool.evidence().is_none());
    assert!(pool.adapted().is_none());
}

#[test]
fn storing_and_reading_back_keeps_every_score() {
    let cfg = EmbeddingPoolConfig {
        anchor_distance_threshold: b(1.0),
        ..EmbeddingPoolConfig::default()
    };
    let mut pool = EmbeddingPool::new(cfg);
    pool.add_anchors(vec![unit(&[0.9, 0.1, 0.3]), unit(&[0.2, 0.8, -0.4])]);
    assert!(pool.adapt(unit(&[0.5, 0.5, 0.5])));
    let restored = PoolPayload::from_pool(&pool).into_pool(cfg);
    assert_eq!(PoolPayload::from_pool(&pool).version, PERSISTENCE_VERSION);
    for probe in [[1.0, 0.0, 0.0], [0.3, -0.2, 0.9], [-0.5, 0.5, 0.1]] {
        let p = v(&probe);
        assert_eq!(restored.match_score(&p), pool.match_score(&p));
        assert_eq!(restored.anchor_distance(&p), pool.anchor_distance(&p));
    }
    assert_eq!(restored.adapted(), pool.adapted());
    assert_eq!(restored.condition_centroids(), pool.condition_centroids());
}

#[test]
fn learning_leaves_the_enrollment_alone() {
    let mut pool = EmbeddingPool::new(EmbeddingPoolConfig {
        anchor_distance_threshold: b(1.0),
        ..EmbeddingPoolConfig::default()
    });
    pool.add_anchors(vec![v(&[1.0, 0.0]), v(&[0.6, 0.8])]);
    let anchors = pool.anchors().to_vec();
    let centroid = pool.anchor_centroid().unwrap().to_vec();
    assert!(pool.adapt(v(&[0.0, 1.0])));
    assert_eq!(pool.anchors(), anchors.as_slice());
    assert_eq!(pool.anchor_centroid().unwrap(), centroid.as_slice());
    assert_eq!(f(pool.config().anchor_distance_threshold), 1.0);
}

#[test]
fn groups_share_out_all_anchors() {
    assert!(condition_groups(&[]).is_empty());
    let one = v(&[0.25, -0.5]);
    assert_eq!(condition_groups(&[one.clone()]), vec![one]);
    let a = v(&[1.0, 0.0, 0.0]);
    let c = v(&[0.0, 1.0, 0.0]);
    let groups = condition_groups(&[a.clone(), c.clone()]);
    assert_eq!(groups, vec![a, c]);
    // Two windows of one voice are one condition, their mean.
    let groups = condition_groups(&[v(&[1.0, 0.5]), v(&[1.0, 0.25])]);
    assert_eq!(groups.len(), 1);
    assert_eq!(back(&groups[0]), &[1.0, 0.375]);
}

#[test]
fn persistence_errors_say_what_went_wrong() {
    assert_eq!(
        PersistenceError::Io("gone".to_string()).message(),
        "I/O error: gone"
    );
    assert_eq!(
        PersistenceError::Json("bad".to_string()).message(),
        "JSON error: bad"
    );
    assert_eq!(
        PersistenceError::UnsupportedVersion(99).message(),
        "unsupported enrollment version: 99"
    );
    assert!(matches!(payload("{"), Err(PersistenceError::Json(_))));
}
