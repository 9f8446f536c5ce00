use mellonella::binary32::Binary32;
use mellonella::capture::enrollment_consistency;
use mellonella::capture::validate_enrollment_capture;
use mellonella::capture::CaptureFault;
use mellonella::enrollment::EmbeddingPool;
use mellonella::enrollment::EmbeddingPoolConfig;
use mellonella::enrollment::PersistenceError;
use mellonella::gating::GateConfig;
use mellonella::recording::explain;
use mellonella::state::AppState;
use mellonella::state::EnrollmentOrigin;
use mellonella::state::MIN_ENROLLMENT_CONSISTENCY;
use mellonella::state::OUTPUT_SAMPLE_RATE;
use std::cell::RefCell;
use std::path::PathBuf;

fn b(x: f32) -> Binary32 {
    Binary32 { bits: x.to_bits() }
}

fn f(x: Binary32) -> f32 {
    f32::from_bits(x.bits)
}

fn v(xs: &[f32]) -> Vec<Binary32> {
    xs.iter().map(|&x| b(x)).collect()
}

fn decibels(x: Binary32) -> Binary32 {
    b(20.0 * f(x).log10())
}

fn number(x: Binary32, places: u32) -> String {
    format!("{:.1$}", f(x), places as usize)
}

fn state() -> AppState {
    let gate = GateConfig {
        theta_pass: b(0.45),
        adaptive_theta: false,
        use_as_norm: false,
        hangover_ms: b(500.0),
        hangover_floor_frac: b(0.5),
        release_ms: b(120.0),
        attack_ms: b(10.0),
        theta_f0: b(0.5),
        other_speaker_margin: b(0.08),
    };
    AppState::new(Vec::new(), Vec::new(), None, None, None, gate, b(0.5))
}

fn pool(anchors: usize, f0_mu: f32, f0_sigma: f32) -> EmbeddingPool {
    let mut pool = EmbeddingPool::new(EmbeddingPoolConfig::default());
    pool.add_anchors((0..anchors).map(|i| v(&[1.0, 0.01 * i as f32])).collect());
    pool.set_f0_stats(b(f0_mu), b(f0_sigma));
    pool
}

/// Three seconds of a voice.
fn voice() -> Vec<Binary32> {
    (0..OUTPUT_SAMPLE_RATE as usize * 3)
        .map(|index| {
            let t = index as f32 / OUTPUT_SAMPLE_RATE as f32;
            b(0.10 * (2.0 * std::f32::consts::PI * 180.0 * t).sin())
        })
        .collect()
}

fn lower(audio: &[Binary32], from: u32, to: u32) -> Result<Vec<Binary32>, String> {
    assert_eq!((from, to), (48_000, 16_000));
    Ok(audio.iter().step_by(3).copied().collect())
}

fn fine() -> Result<(), String> {
    Ok(())
}

fn enroll(
    s: &mut AppState,
    audio: &[Binary32],
    made: &dyn Fn(&[Binary32]) -> Result<EmbeddingPool, String>,
) -> bool {
    s.run_enrollment(
        audio,
        EnrollmentOrigin::Mic { secs: 20 },
        &decibels,
        &number,
        &lower,
        &fine,
        &|a: &[Binary32]| made(a),
        &|| false,
        &fine,
        &|_: &EmbeddingPool, _: &[Binary32]| Err("not asked".to_string()),
    )
}

#[test]
fn enrollment_capture_quality_accepts_clean_speech_level_signal() {
    let audio = voice();
    assert!(validate_enrollment_capture(&audio, OUTPUT_SAMPLE_RATE, &decibels).is_ok());
}

#[test]
fn enrollment_capture_quality_rejects_silence_and_clipping() {
    assert!(validate_enrollment_capture(
        &vec![b(0.0); OUTPUT_SAMPLE_RATE as usize * 3],
        OUTPUT_SAMPLE_RATE,
        &decibels
    )
    .is_err());
    assert!(validate_enrollment_capture(
        &vec![b(1.0); OUTPUT_SAMPLE_RATE as usize * 3],
        OUTPUT_SAMPLE_RATE,
        &decibels
    )
    .is_err());
}

#[test]
fn enrollment_consistency_separates_coherent_and_conflicting_profiles() {
    let coherent = vec![
        v(&[1.0, 0.0, 0.0]),
        v(&[0.98, 0.10, 0.0]),
        v(&[0.95, -0.10, 0.0]),
    ];
    let conflicting = vec![
        v(&[1.0, 0.0, 0.0]),
        v(&[0.0, 1.0, 0.0]),
        v(&[0.0, 0.0, 1.0]),
    ];
    assert!(f(enrollment_consistency(&coherent)) > 0.9);
    assert!(f(enrollment_consistency(&conflicting)) < f32::from_bits(MIN_ENROLLMENT_CONSISTENCY));
    assert_eq!(f(enrollment_consistency(&[])), 0.0);
    assert_eq!(f(enrollment_consistency(&[v(&[1.0])])), 0.0);
    // The median of the three pairs: -1, 0 and 0.
    let odd = vec![v(&[1.0, 0.0]), v(&[-1.0, 0.0]), v(&[0.0, 1.0])];
    assert_eq!(f(enrollment_consistency(&odd)), 0.0);
}

fn fault(audio: &[Binary32]) -> CaptureFault {
    validate_enrollment_capture(audio, OUTPUT_SAMPLE_RATE, &decibels).unwrap_err()
}

#[test]
fn every_fault_of_a_recording_is_found_and_explained() {
    assert_eq!(fault(&[]), CaptureFault::Broken);
    assert_eq!(fault(&[b(0.1), b(f32::NAN)]), CaptureFault::Broken);
    assert_eq!(
        explain(CaptureFault::Broken, &number),
        "マイク入力が空か壊れています"
    );

    let quiet: Vec<Binary32> = voice().iter().map(|&x| b(f(x) * 0.01)).collect();
    let found = fault(&quiet);
    assert!(matches!(found, CaptureFault::TooQuiet { .. }));
    assert_eq!(
        explain(found, &number),
        "声が小さすぎます（平均 -63 dBFS）。Windowsのマイク音量を上げ、15〜25cmの距離で話してください"
    );

    let mut clipped = voice();
    for k in 0..1_440 {
        clipped[k * 100] = b(if k % 2 == 0 { 1.0 } else { -1.0 });
    }
    let found = fault(&clipped);
    assert!(matches!(found, CaptureFault::Clipped { .. }));
    assert_eq!(
        explain(found, &number),
        "音割れしています（クリップ 1.00%）。Windowsのマイク音量を下げるか、マイクから少し離れてください"
    );

    let shifted: Vec<Binary32> = voice().iter().map(|&x| b(f(x) + 0.2)).collect();
    assert_eq!(fault(&shifted), CaptureFault::DcOffset);
    assert_eq!(
        explain(CaptureFault::DcOffset, &number),
        "マイク信号に大きな直流ずれがあります。入力デバイスを選び直してください"
    );

    let mut sparse = voice();
    for x in sparse.iter_mut().skip(OUTPUT_SAMPLE_RATE as usize) {
        *x = b(0.0);
    }
    let found = fault(&sparse);
    assert!(matches!(found, CaptureFault::TooLittleSpeech { .. }));
    assert_eq!(
        explain(found, &number),
        "発話区間が少なすぎます（33%）。20秒間、文章を止まらず繰り返してください"
    );
}

#[test]
fn a_good_recording_becomes_the_profile() {
    let mut s = state();
    let heard = RefCell::new(0);
    let stored = enroll(&mut s, &voice(), &|a| {
        *heard.borrow_mut() = a.len();
        Ok(pool(6, 120.0, 20.0))
    });
    assert!(stored);
    assert_eq!(*heard.borrow(), 48_000);
    assert_eq!(s.pool_anchors, 6);
    assert_eq!(f(s.pool_f0_mu), 120.0);
    assert_eq!(f(s.pool_f0_sigma), 20.0);
    assert_eq!(s.origin, EnrollmentOrigin::Mic { secs: 20 });
    assert!(s.separator_pool.is_none() && s.last_error.is_none());
}

#[test]
fn whatever_refuses_a_recording_keeps_the_profile() {
    let mut s = state();
    s.store_pool(pool(7, 100.0, 10.0), EnrollmentOrigin::Mic { secs: 15 });
    s.pending_append = true;

    assert!(!enroll(&mut s, &[], &|_| panic!("asked")));
    assert_eq!(
        s.last_error.as_deref(),
        Some("声紋登録を中止しました: マイク入力が空か壊れています。保存済みの声紋は変更していません。")
    );
    assert!(!s.pending_append);

    assert!(!enroll(&mut s, &voice(), &|_| Ok(pool(5, 1.0, 1.0))));
    assert_eq!(
        s.last_error.as_deref(),
        Some(
            "声の特徴点が5個しか取れませんでした（6個以上必要）。\
             マイクに近づき、20秒間止まらず読み上げてください。保存済みの声紋は変更していません。"
        )
    );

    let mut scattered = EmbeddingPool::new(EmbeddingPoolConfig::default());
    scattered.add_anchors(
        (0..6)
            .map(|i| {
                let mut x = [0.0; 6];
                x[i] = 1.0;
                v(&x)
            })
            .collect(),
    );
    assert!(!enroll(&mut s, &voice(), &|_| Ok(scattered.clone())));
    assert_eq!(
        s.last_error.as_deref(),
        Some(
            "声の特徴が安定していません（一貫度 0.00、必要値 0.40）。\
             スピーカー音を止め、マイクから15〜25cm離れて同じ声量で読み直してください。\
             保存済みの声紋は変更していません。"
        )
    );

    assert!(!enroll(&mut s, &voice(), &|_| Err("no speech".to_string())));
    assert_eq!(s.last_error.as_deref(), Some("enrol: no speech"));

    let origin = || EnrollmentOrigin::Mic { secs: 20 };
    let made = |_: &[Binary32]| Ok(pool(6, 1.0, 1.0));
    let never = |_: &EmbeddingPool, _: &[Binary32]| Err("cold".to_string());
    assert!(!s.run_enrollment(
        &voice(), origin(), &decibels, &number,
        &|_: &[Binary32], _: u32, _: u32| Err("ratio".to_string()),
        &fine, &made, &|| true, &fine, &never,
    ));
    assert_eq!(
        s.last_error.as_deref(),
        Some("resample 48 kHz → 16 kHz for ECAPA: rubato resampler error: ratio")
    );
    assert!(!s.run_enrollment(
        &voice(), origin(), &decibels, &number, &lower,
        &|| Err("ECAPA ONNX: gone".to_string()),
        &made, &|| true, &fine, &never,
    ));
    assert_eq!(s.last_error.as_deref(), Some("ECAPA ONNX: gone"));
    assert!(!s.run_enrollment(
        &voice(), origin(), &decibels, &number, &lower, &fine, &made, &|| true,
        &|| Err("gone".to_string()),
        &never,
    ));
    assert_eq!(
        s.last_error.as_deref(),
        Some("分離後の声紋登録用ECAPAを読み込めません: gone")
    );
    assert!(!s.run_enrollment(
        &voice(), origin(), &decibels, &number, &lower, &fine, &made, &|| true, &fine, &never,
    ));
    assert_eq!(
        s.last_error.as_deref(),
        Some("分離後の本人声紋を登録できませんでした: cold。保存済みの声紋は変更していません。")
    );

    assert_eq!(s.pool_anchors, 7);
    assert_eq!(s.pool.as_ref().unwrap().anchors().len(), 7);
    assert_eq!(s.origin, EnrollmentOrigin::Mic { secs: 15 });
    assert!(s.separator_pool.is_none());
}

#[test]
fn the_separator_gets_a_companion_profile() {
    let mut s = state();
    let stored = s.run_enrollment(
        &voice(),
        EnrollmentOrigin::Mic { secs: 20 },
        &decibels,
        &number,
        &lower,
        &fine,
        &|_: &[Binary32]| Ok(pool(6, 120.0, 20.0)),
        &|| true,
        &fine,
        &|p: &EmbeddingPool, a: &[Binary32]| {
            assert_eq!(p.anchors().len(), 6);
            assert_eq!(a.len(), 144_000);
            Ok(pool(10, 0.0, 0.0))
        },
    );
    assert!(stored);
    assert_eq!(s.separator_pool.as_ref().unwrap().anchors().len(), 10);
    assert_eq!(s.pool.as_ref().unwrap().anchors().len(), 6);
}

#[test]
fn extending_keeps_every_registration_and_widens_the_pitch() {
    let mut s = state();
    s.store_pool(pool(6, 100.0, 0.0), EnrollmentOrigin::Mic { secs: 20 });
    s.pending_append = true;
    assert!(enroll(&mut s, &voice(), &|_| Ok(pool(6, 200.0, 0.0))));
    assert_eq!(s.pool_anchors, 12);
    assert_eq!(f(s.pool_f0_mu), 150.0);
    assert_eq!(f(s.pool_f0_sigma), 50.0);
    assert!(!s.pending_append);
    let anchors = s.pool.as_ref().unwrap().anchors();
    assert_eq!(anchors[0], anchors[6]);
    assert_eq!(anchors[5], anchors[11]);
}

#[test]
fn companions_are_merged_as_profiles_are() {
    let count = |s: &AppState| s.separator_pool.as_ref().map(|p| p.anchors().len());
    let origin = || EnrollmentOrigin::Mic { secs: 20 };
    // Both sides have one.
    let mut s = state();
    s.store_pool(pool(6, 1.0, 1.0), origin());
    s.separator_pool = Some(pool(9, 1.0, 1.0));
    s.append_enrollment(pool(7, 1.0, 1.0), Some(pool(10, 1.0, 1.0)), origin());
    assert_eq!((s.pool_anchors, count(&s)), (13, Some(19)));
    // Only the saved side.
    s.append_enrollment(pool(1, 1.0, 1.0), None, origin());
    assert_eq!((s.pool_anchors, count(&s)), (14, Some(19)));
    // Only the new side: the saved anchors join it.
    let mut s = state();
    s.store_pool(pool(6, 1.0, 1.0), origin());
    s.append_enrollment(pool(7, 1.0, 1.0), Some(pool(10, 1.0, 1.0)), origin());
    assert_eq!((s.pool_anchors, count(&s)), (13, Some(16)));
    // Neither.
    let mut s = state();
    s.store_pool(pool(6, 1.0, 1.0), origin());
    s.append_enrollment(pool(7, 1.0, 1.0), None, origin());
    assert_eq!((s.pool_anchors, count(&s)), (13, None));
    // Nothing saved: the new profile is stored as it is.
    let mut s = state();
    s.append_enrollment(pool(7, 3.0, 1.0), Some(pool(10, 1.0, 1.0)), origin());
    assert_eq!((s.pool_anchors, count(&s)), (7, Some(10)));
    assert_eq!(f(s.pool_f0_mu), 3.0);
}

#[test]
fn a_recording_begins_only_once() {
    let mut s = state();
    s.selected_input = Some("Mic".to_string());
    let asked = RefCell::new(Vec::new());
    let start = |d: Option<String>, rate: u32, secs: Binary32| {
        asked.borrow_mut().push((d, rate, f(secs)));
        Ok(())
    };
    s.last_error = Some("old".to_string());
    s.start_recording(b(20.0), true, &start);
    assert!(s.is_recording() && s.last_error.is_none());
    // Without a profile there is nothing to extend.
    assert!(!s.pending_append);
    s.start_recording(b(20.0), true, &start);
    assert_eq!(
        asked.borrow().as_slice(),
        [(Some("Mic".to_string()), 48_000, 20.0)]
    );
    assert!(s.cancel_recording());

    let mut s = state();
    assert!(!s.cancel_recording());
    s.store_pool(pool(6, 1.0, 1.0), EnrollmentOrigin::Mic { secs: 20 });
    s.start_recording(b(20.0), true, &|_: Option<String>, _: u32, _: Binary32| {
        Err("busy".to_string())
    });
    assert!(!s.is_recording() && s.pending_append);
    assert_eq!(s.last_error.as_deref(), Some("start recording: busy"));
}

#[test]
fn a_finished_recording_is_handed_on() {
    let mut s = state();
    assert!(s.poll_recorder(Some(Ok(voice()))).is_none());
    s.recording = true;
    assert!(s.poll_recorder(None).is_none());
    assert!(s.is_recording());
    assert_eq!(s.poll_recorder(Some(Ok(voice()))).unwrap().len(), 144_000);
    assert!(!s.is_recording() && s.last_error.is_none());

    s.recording = true;
    assert!(s.poll_recorder(Some(Ok(vec![b(0.1); 47_999]))).is_none());
    assert_eq!(
        s.last_error.as_deref(),
        Some("recording too short for ECAPA enrolment (need ≥ 1 s)")
    );
    s.recording = true;
    assert!(s.poll_recorder(Some(Err("unplugged".to_string()))).is_none());
    assert_eq!(s.last_error.as_deref(), Some("recording failed: unplugged"));
    assert!(!s.is_recording());
}

#[test]
fn profiles_are_saved_where_the_next_launch_looks() {
    let mut s = state();
    let written = RefCell::new(Vec::new());
    let save = |p: &EmbeddingPool, f: &PathBuf| {
        written.borrow_mut().push((p.anchors().len(), f.clone()));
        Ok(())
    };
    let prepare = |_: &PathBuf| Ok(());
    s.persist_enrollment_to_default_path(&prepare, &save);
    assert!(written.borrow().is_empty());
    if mellonella::paths::default_enrollment_path().is_none() {
        return;
    }
    s.store_pool(pool(6, 1.0, 1.0), EnrollmentOrigin::Mic { secs: 20 });
    s.persist_enrollment_to_default_path(&prepare, &save);
    assert_eq!(written.borrow().len(), 1);
    assert!(written.borrow()[0].1.ends_with("mellonella/enrollment.json"));
    s.separator_pool = Some(pool(9, 1.0, 1.0));
    s.persist_enrollment_to_default_path(&prepare, &save);
    assert_eq!(written.borrow().len(), 3);
    assert_eq!(written.borrow()[2].0, 9);
    assert!(written.borrow()[2]
        .1
        .ends_with("mellonella/enrollment-separator.json"));
    assert!(s.last_error.is_none());

    s.persist_enrollment_to_default_path(&|_: &PathBuf| Err("read-only".to_string()), &save);
    assert_eq!(s.last_error.as_deref(), Some("create config dir: read-only"));
    let full = |_: &EmbeddingPool, _: &PathBuf| Err(PersistenceError::Io("full".to_string()));
    s.persist_enrollment_to_default_path(&prepare, &full);
    assert_eq!(
        s.last_error.as_deref(),
        Some("auto-save enrollment: I/O error: full")
    );
    let second = |p: &EmbeddingPool, _: &PathBuf| {
        if p.anchors().len() == 9 {
            Err(PersistenceError::Io("full".to_string()))
        } else {
            Ok(())
        }
    };
    s.persist_enrollment_to_default_path(&prepare, &second);
    assert_eq!(
        s.last_error.as_deref(),
        Some("分離後の声紋を保存できません: I/O error: full")
    );
}

#[test]
fn profiles_are_saved_under_the_paths_given() {
    let at = |name: &str| Some(PathBuf::from(name));
    let log = RefCell::new(Vec::new());
    let prepare = |f: &PathBuf| {
        log.borrow_mut().push((0, f.clone()));
        Ok(())
    };
    let save = |p: &EmbeddingPool, f: &PathBuf| {
        log.borrow_mut().push((p.anchors().len(), f.clone()));
        Ok(())
    };
    let taken = || log.borrow_mut().drain(..).collect::<Vec<_>>();
    let file = |n: usize, name: &str| (n, PathBuf::from(name));

    // There is no profile.
    let mut s = state();
    s.separator_pool = Some(pool(9, 1.0, 1.0));
    s.save_enrollment_at(at("a/p.json"), at("a/c.json"), &prepare, &save);
    assert!(taken().is_empty() && s.last_error.is_none());
    // There is no place for it.
    let mut s = state();
    s.store_pool(pool(6, 1.0, 1.0), EnrollmentOrigin::Mic { secs: 20 });
    s.save_enrollment_at(None, at("a/c.json"), &prepare, &save);
    assert!(taken().is_empty() && s.last_error.is_none());
    // No companion, or no place for it.
    s.save_enrollment_at(at("a/p.json"), at("a/c.json"), &prepare, &save);
    assert_eq!(taken(), vec![file(0, "a/p.json"), file(6, "a/p.json")]);
    s.separator_pool = Some(pool(9, 1.0, 1.0));
    s.save_enrollment_at(at("a/p.json"), None, &prepare, &save);
    assert_eq!(taken(), vec![file(0, "a/p.json"), file(6, "a/p.json")]);
    // Both.
    s.save_enrollment_at(at("a/p.json"), at("a/c.json"), &prepare, &save);
    assert_eq!(
        taken(),
        vec![file(0, "a/p.json"), file(6, "a/p.json"), file(9, "a/c.json")]
    );
    assert!(s.last_error.is_none());

    // What fails ends the saving, and the user is told.
    s.save_enrollment_at(
        at("a/p.json"),
        at("a/c.json"),
        &|_: &PathBuf| Err("read-only".to_string()),
        &save,
    );
    assert!(taken().is_empty());
    assert_eq!(s.last_error.as_deref(), Some("create config dir: read-only"));
    let fails_for = |n: usize| {
        let log = &log;
        move |p: &EmbeddingPool, f: &PathBuf| {
            log.borrow_mut().push((p.anchors().len(), f.clone()));
            if p.anchors().len() == n {
                Err(PersistenceError::Io("full".to_string()))
            } else {
                Ok(())
            }
        }
    };
    s.save_enrollment_at(at("a/p.json"), at("a/c.json"), &prepare, &fails_for(6));
    assert_eq!(taken(), vec![file(0, "a/p.json"), file(6, "a/p.json")]);
    assert_eq!(
        s.last_error.as_deref(),
        Some("auto-save enrollment: I/O error: full")
    );
    s.save_enrollment_at(at("a/p.json"), at("a/c.json"), &prepare, &fails_for(9));
    assert_eq!(taken().len(), 3);
    assert_eq!(
        s.last_error.as_deref(),
        Some("分離後の声紋を保存できません: I/O error: full")
    );
    assert_eq!(s.pool_anchors, 6);
}

#[test]
fn the_order_of_the_anchors_does_not_matter() {
    let anchors = [
        v(&[1.0, 0.0, 0.2]),
        v(&[0.3, 0.9, 0.1]),
        v(&[0.5, 0.5, 0.7]),
        v(&[0.9, 0.2, 0.4]),
    ];
    let expected = enrollment_consistency(&anchors);
    for order in [[3, 2, 1, 0], [1, 3, 0, 2], [2, 0, 3, 1], [0, 2, 1, 3]] {
        let other: Vec<Vec<Binary32>> = order.iter().map(|&i| anchors[i].clone()).collect();
        assert_eq!(enrollment_consistency(&other), expected);
    }
}
