use mellonella::binary32::Binary32;
use mellonella::enrollment::EmbeddingPool;
use mellonella::enrollment::EmbeddingPoolConfig;
use mellonella::separation::build_separator_enrollment_pool;
use mellonella::separation::calibration_anchors;
use mellonella::separation::complete_separator_pool;
use mellonella::separation::normalise;
use mellonella::separation::score_against;
use mellonella::separation::SeparatorTuning;
use mellonella::separation::TargetSpeakerSeparator;
use mellonella::separation::LIVE_BLOCK_SAMPLES;
use mellonella::sepformer::deinterleave;
use mellonella::sepformer::separate;
use mellonella::sepformer::EmbeddingError;
use mellonella::sepformer::SEPFORMER_BLOCK_SAMPLES;
use mellonella::sepformer::SEPFORMER_STREAMS;
use std::cell::RefCell;

fn b(x: f32) -> Binary32 {
    Binary32 { bits: x.to_bits() }
}

fn f(x: Binary32) -> f32 {
    f32::from_bits(x.bits)
}

fn v(xs: &[f32]) -> Vec<Binary32> {
    xs.iter().map(|&x| b(x)).collect()
}

fn pool() -> EmbeddingPool {
    let mut pool = EmbeddingPool::new(EmbeddingPoolConfig::default());
    pool.add_anchors(vec![v(&[1.0, 0.0])]);
    pool
}

/// Keeps every `from / to`-th sample, or repeats each of them.
fn resample(audio: &[Binary32], from: u32, to: u32) -> Result<Vec<Binary32>, String> {
    let n = (audio.len() as u64 * u64::from(to) / u64::from(from)) as usize;
    Ok((0..n)
        .map(|i| audio[(i as u64 * u64::from(from) / u64::from(to)) as usize])
        .collect())
}

/// The first stream is the mixture, the second its half.
fn halves(mixture: &[Binary32]) -> Result<(Vec<Binary32>, Vec<Binary32>), String> {
    Ok((
        mixture.to_vec(),
        mixture.iter().map(|&x| b(f(x) * 0.5)).collect(),
    ))
}

fn second(len: usize, level: f32) -> Vec<Binary32> {
    (0..len)
        .map(|i| b(if i % 2 == 0 { level } else { -level }))
        .collect()
}

#[test]
fn the_separator_asks_for_an_enrollment() {
    let empty = EmbeddingPool::new(EmbeddingPoolConfig::default());
    match TargetSpeakerSeparator::new(empty, SeparatorTuning::default()) {
        Err(e) => assert_eq!(e, "SepFormer target selection requires an enrollment"),
        Ok(_) => panic!("expected a refusal"),
    }
}

#[test]
fn the_enrolled_stream_goes_on() {
    let mut stage = TargetSpeakerSeparator::new(pool(), SeparatorTuning::default()).unwrap();
    let embed = |_: &[Binary32]| Ok(v(&[0.8, 0.6]));
    let input = vec![b(0.25); LIVE_BLOCK_SAMPLES];
    assert!(stage
        .push(&input[..1_000], &resample, &halves, &embed)
        .unwrap()
        .is_empty());
    let out = stage
        .push(&input[1_000..], &resample, &halves, &embed)
        .unwrap();
    assert_eq!(out.len(), 1);
    assert_eq!(out[0].len(), LIVE_BLOCK_SAMPLES);
    assert_eq!(f(stage.tuning().last_best_score()), 0.8);
    // The first stream wins a tie and carries its share of the energy.
    let want = 0.25 / (0.25f32 * 0.25 + 0.125 * 0.125).sqrt() * 0.25;
    assert!((f(out[0][10_000]) - want).abs() < 1e-6);
    assert_eq!(f(out[0][0]), 0.0);
    assert_eq!(f(out[0][LIVE_BLOCK_SAMPLES - 1]), 0.0);
}

#[test]
fn the_closer_stream_is_chosen_with_the_polarity_of_the_mixture() {
    let mut stage = TargetSpeakerSeparator::new(pool(), SeparatorTuning::default()).unwrap();
    let calls = RefCell::new(0);
    let embed = |_: &[Binary32]| {
        *calls.borrow_mut() += 1;
        // The second stream is the enrolled speaker.
        Ok(if *calls.borrow() % 2 == 1 {
            v(&[0.0, 1.0])
        } else {
            v(&[1.0, 0.0])
        })
    };
    let separate = |m: &[Binary32]| {
        Ok((
            m.iter().map(|&x| b(f(x) * 0.5)).collect::<Vec<_>>(),
            m.iter().map(|&x| b(-f(x))).collect::<Vec<_>>(),
        ))
    };
    let out = stage
        .push(&vec![b(0.25); LIVE_BLOCK_SAMPLES], &resample, &separate, &embed)
        .unwrap();
    // The inverted stream is turned round.
    assert!(f(out[0][20_000]) > 0.2);
    assert_eq!(f(stage.tuning().last_best_score()), 1.0);
}

#[test]
fn nothing_that_does_not_match_is_heard() {
    let mut stage = TargetSpeakerSeparator::new(pool(), SeparatorTuning::default()).unwrap();
    let embed = |_: &[Binary32]| Ok(v(&[0.4, 0.9]));
    let out = stage
        .push(&second(LIVE_BLOCK_SAMPLES, 0.3), &resample, &halves, &embed)
        .unwrap();
    assert!(out[0].iter().all(|&x| f(x) == 0.0));
    assert!(f(stage.tuning().last_best_score()) < 0.5);
    // A lower threshold lets the same voice through.
    stage.set_threshold(b(0.3));
    assert_eq!(f(stage.tuning().threshold()), 0.3);
    let out = stage
        .push(&vec![b(0.3); LIVE_BLOCK_SAMPLES], &resample, &halves, &embed)
        .unwrap();
    assert!(out[0].iter().any(|&x| f(x) > 0.1));
}

#[test]
fn silence_costs_no_model_run() {
    let mut stage = TargetSpeakerSeparator::new(pool(), SeparatorTuning::default()).unwrap();
    let never = |_: &[Binary32]| -> Result<(Vec<Binary32>, Vec<Binary32>), String> {
        panic!("asked about silence")
    };
    let embed = |_: &[Binary32]| Ok(v(&[1.0, 0.0]));
    let out = stage
        .push(&vec![b(0.0); LIVE_BLOCK_SAMPLES], &resample, &never, &embed)
        .unwrap();
    assert!(out[0].iter().all(|&x| f(x) == 0.0));
    assert_eq!(f(stage.tuning().last_best_score()), 0.0);
}

#[test]
fn a_failed_block_is_not_processed_again() {
    let mut stage = TargetSpeakerSeparator::new(pool(), SeparatorTuning::default()).unwrap();
    let embed = |_: &[Binary32]| Ok(v(&[1.0, 0.0]));
    let broken = |_: &[Binary32]| Err("model is gone".to_string());
    let loud = vec![b(0.25); LIVE_BLOCK_SAMPLES + 10];
    assert_eq!(
        stage.push(&loud, &resample, &broken, &embed),
        Err("model is gone".to_string())
    );
    // Only the ten samples behind the failed block are left.
    let rest = stage.flush(&resample, &halves, &embed).unwrap().unwrap();
    assert_eq!(rest.len(), 10);
    assert!(stage.flush(&resample, &halves, &embed).unwrap().is_none());
}

#[test]
fn flushing_returns_what_was_captured() {
    let mut stage = TargetSpeakerSeparator::new(pool(), SeparatorTuning::default()).unwrap();
    let embed = |_: &[Binary32]| Ok(v(&[1.0, 0.0]));
    stage
        .push(&vec![b(0.25); 4_000], &resample, &halves, &embed)
        .unwrap();
    let rest = stage.flush(&resample, &halves, &embed).unwrap().unwrap();
    assert_eq!(rest.len(), 4_000);
    assert!(f(rest[2_000]) > 0.0);
}

#[test]
fn streams_are_scored_at_a_common_level() {
    let out = normalise(&vec![b(0.04); 100]);
    assert!(out.iter().all(|&x| (f(x) - 0.08).abs() < 1e-6));
    // Gains and samples are bounded.
    let out = normalise(&vec![b(1.0e-6); 100]);
    assert!(out.iter().all(|&x| (f(x) - 1.0e-4).abs() < 1e-9));
}

#[test]
fn more_anchors_never_lower_a_score() {
    let probe = v(&[0.6, 0.8]);
    assert_eq!(f(score_against(&[], &probe)), 0.0);
    let few = vec![v(&[1.0, 0.0])];
    let more = vec![v(&[1.0, 0.0]), v(&[0.0, 1.0]), v(&[-1.0, 0.0])];
    assert_eq!(f(score_against(&few, &probe)), 0.6);
    assert_eq!(f(score_against(&more, &probe)), 0.8);
}

#[test]
fn calibration_keeps_the_closer_stream_of_each_block() {
    let anchors = vec![v(&[1.0, 0.0])];
    let embed = |_: &[Binary32]| Ok(v(&[0.6, 0.8]));
    let recording = vec![b(0.2); 10 * LIVE_BLOCK_SAMPLES];
    let found = calibration_anchors(&anchors, &recording, &resample, &halves, &embed).unwrap();
    assert_eq!(found.len(), 8);
    assert!(found.iter().all(|e| *e == v(&[0.6, 0.8])));
    // A shorter recording gives as many as it has blocks.
    let found =
        calibration_anchors(&anchors, &recording[..3 * LIVE_BLOCK_SAMPLES], &resample, &halves, &embed)
            .unwrap();
    assert_eq!(found.len(), 3);
}

#[test]
fn the_companion_keeps_the_clean_anchors_and_adds_the_separated() {
    let embed = |_: &[Binary32]| Ok(v(&[0.6, 0.8]));
    let recording = vec![b(0.2); 5 * LIVE_BLOCK_SAMPLES];
    let built =
        build_separator_enrollment_pool(&pool(), &recording, &resample, &halves, &embed).unwrap();
    assert_eq!(built.anchors().len(), 6);
    assert_eq!(built.anchors()[0], v(&[1.0, 0.0]));
    assert_eq!(built.anchors()[5], v(&[0.6, 0.8]));

    let short = &recording[..2 * LIVE_BLOCK_SAMPLES];
    match build_separator_enrollment_pool(&pool(), short, &resample, &halves, &embed) {
        Err(e) => assert_eq!(e, "分離後の本人声紋が2個しか作れませんでした（4個以上必要）"),
        Ok(_) => panic!("expected a refusal"),
    }
    let empty = EmbeddingPool::new(EmbeddingPoolConfig::default());
    match build_separator_enrollment_pool(&empty, &recording, &resample, &halves, &embed) {
        Err(e) => assert_eq!(e, "SepFormer target selection requires an enrollment"),
        Ok(_) => panic!("expected a refusal"),
    }
    assert!(complete_separator_pool(&pool(), vec![v(&[1.0, 0.0]); 4]).is_ok());
}

#[test]
fn tuning_keeps_what_it_is_told() {
    let mut tuning = SeparatorTuning::default();
    assert_eq!(f(tuning.threshold()), 0.5);
    assert_eq!(f(tuning.last_best_score()), 0.0);
    tuning.set_threshold(b(0.7));
    assert_eq!(f(tuning.threshold()), 0.7);
    assert_eq!(f(SeparatorTuning::new(b(0.2)).threshold()), 0.2);
}

fn model(mixture: &[Binary32]) -> Result<(Vec<i64>, Vec<Binary32>), String> {
    let mut data = Vec::new();
    for &x in mixture {
        data.push(x);
        data.push(b(-f(x)));
    }
    Ok((vec![1, 8_000, 2], data))
}

#[test]
fn two_streams_come_out_of_the_model() {
    assert_eq!(SEPFORMER_STREAMS, 2);
    let mixture: Vec<Binary32> = (0..SEPFORMER_BLOCK_SAMPLES).map(|i| b(i as f32)).collect();
    let (one, two) = separate(&mixture, model).unwrap();
    assert_eq!(one, mixture);
    assert!(two.iter().zip(&mixture).all(|(x, y)| f(*x) == -f(*y)));
}

#[test]
fn the_model_is_not_run_on_another_length() {
    let short = vec![b(0.0); 10];
    assert!(matches!(
        separate(&short, |_: &[Binary32]| panic!("asked")),
        Err(EmbeddingError::Shape)
    ));
}

#[test]
fn a_model_that_misbehaves_is_reported() {
    let mixture = vec![b(0.0); SEPFORMER_BLOCK_SAMPLES];
    assert!(matches!(
        separate(&mixture, |_: &[Binary32]| Err("down".to_string())),
        Err(EmbeddingError::Ort(m)) if m == "down"
    ));
    match deinterleave(&[1, 7_999, 2], &[]) {
        Err(EmbeddingError::UnexpectedOutputShape { got, expected_dim }) => {
            assert_eq!(got, vec![1, 7_999, 2]);
            assert_eq!(expected_dim, 16_000);
        }
        other => panic!("unexpected {other:?}"),
    }
    let mut data = vec![b(0.0); 2 * SEPFORMER_BLOCK_SAMPLES];
    data[5] = b(f32::INFINITY);
    assert!(matches!(
        deinterleave(&[1, 8_000, 2], &data),
        Err(EmbeddingError::Ort(m)) if m == "SepFormer produced non-finite audio"
    ));
}

#[test]
fn how_the_input_is_cut_does_not_matter() {
    let embed = |_: &[Binary32]| Ok(v(&[0.8, 0.6]));
    let input: Vec<Binary32> = (0..2 * LIVE_BLOCK_SAMPLES + 777)
        .map(|i| b(0.2 + 0.1 * ((i % 97) as f32 / 97.0)))
        .collect();
    let mut whole = TargetSpeakerSeparator::new(pool(), SeparatorTuning::default()).unwrap();
    let expected = whole.push(&input, &resample, &halves, &embed).unwrap();
    assert_eq!(expected.len(), 2);
    assert!(expected.iter().all(|block| block.len() == LIVE_BLOCK_SAMPLES));

    let mut pieces = TargetSpeakerSeparator::new(pool(), SeparatorTuning::default()).unwrap();
    let mut actual = Vec::new();
    for piece in input.chunks(10_007) {
        actual.extend(pieces.push(piece, &resample, &halves, &embed).unwrap());
    }
    assert_eq!(actual, expected);
    let rest = whole.flush(&resample, &halves, &embed).unwrap().unwrap();
    assert_eq!(rest.len(), 777);
    assert_eq!(pieces.flush(&resample, &halves, &embed).unwrap().unwrap(), rest);
}
