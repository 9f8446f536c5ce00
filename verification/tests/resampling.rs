use mellonella::binary32::Binary32;
use mellonella::converters::Converters;
use mellonella::resample::resample_in_words;
use mellonella::resample::resample_to;
use mellonella::resample::settle;
use mellonella::resample::ResampleError;
use mellonella::resampler::StreamingResampler;
use mellonella::resampler::BLOCK_FRAMES;
use rubato::Resampler;
use rubato::SincFixedIn;
use rubato::SincInterpolationParameters;
use rubato::SincInterpolationType;
use rubato::WindowFunction;
use std::cell::RefCell;

fn b(x: f32) -> Binary32 {
    Binary32 { bits: x.to_bits() }
}

fn v(xs: &[f32]) -> Vec<Binary32> {
    xs.iter().map(|&x| b(x)).collect()
}

fn back(xs: &[Binary32]) -> Vec<f32> {
    xs.iter().map(|&x| f32::from_bits(x.bits)).collect()
}

fn converter(src_sr: u32, dst_sr: u32, chunk: usize) -> SincFixedIn<f32> {
    let params = SincInterpolationParameters {
        sinc_len: 256,
        f_cutoff: 0.95,
        interpolation: SincInterpolationType::Linear,
        oversampling_factor: 256,
        window: WindowFunction::BlackmanHarris2,
    };
    SincFixedIn::<f32>::new(f64::from(dst_sr) / f64::from(src_sr), 1.1, params, chunk, 1).unwrap()
}

fn run(
    mut inner: SincFixedIn<f32>,
    audio: &[Binary32],
) -> (SincFixedIn<f32>, Result<Vec<Binary32>, String>) {
    let out = inner
        .process(&[back(audio)], None)
        .map(|waves| v(&waves[0]))
        .map_err(|e| e.to_string());
    (inner, out)
}

fn signal(len: usize) -> Vec<Binary32> {
    (0..len)
        .map(|index| {
            let t = index as f32 / 44_100.0;
            b((2.0 * std::f32::consts::PI * 997.0 * t).sin() * 0.2)
        })
        .collect()
}

#[test]
fn callback_chunking_does_not_change_the_result() {
    let input = signal(44_100 + 731);
    let mut one_shot = StreamingResampler::new(44_100, 48_000).unwrap();
    let (_, expected) = one_shot.process(&input, converter(44_100, 48_000, BLOCK_FRAMES), &run);
    let expected = expected.unwrap();

    let mut inner = converter(44_100, 48_000, BLOCK_FRAMES);
    let mut chunked = StreamingResampler::new(44_100, 48_000).unwrap();
    let mut actual = Vec::new();
    let mut start = 0;
    for size in [97_usize, 480, 333, 1024, 211, 997].into_iter().cycle() {
        if start >= input.len() {
            break;
        }
        let end = (start + size).min(input.len());
        let (next, out) = chunked.process(&input[start..end], inner, &run);
        actual.extend(out.unwrap());
        inner = next;
        start = end;
    }

    assert!(!expected.is_empty());
    assert_eq!(actual, expected);
    assert_eq!(chunked.pending_len(), one_shot.pending_len());
}

#[test]
fn incomplete_callback_is_buffered_without_fake_silence() {
    let inner = converter(44_100, 48_000, BLOCK_FRAMES);
    let mut resampler = StreamingResampler::new(44_100, 48_000).unwrap();
    let (inner, out) = resampler.process(&v(&vec![0.25; 127]), inner, &run);
    assert!(out.unwrap().is_empty());
    assert_eq!(resampler.pending_len(), 127);
    let (_, out) = resampler.process(&v(&vec![0.25; 128]), inner, &run);
    assert!(out.unwrap().is_empty());
    assert_eq!(resampler.pending_len(), 255);
}

#[test]
fn equal_rates_need_no_resampler() {
    assert!(StreamingResampler::new(48_000, 48_000).is_none());
    assert!(StreamingResampler::new(48_000, 44_100).is_some());
}

#[test]
fn blocks_are_handed_on_whole_and_in_order() {
    let mut resampler = StreamingResampler::new(44_100, 48_000).unwrap();
    let input: Vec<Binary32> = (0..2 * BLOCK_FRAMES + 10).map(|i| b(i as f32)).collect();
    let ends = |mut seen: Vec<usize>, a: &[Binary32]| {
        seen.push(a.len());
        (seen, Ok(vec![a[0], a[a.len() - 1]]))
    };
    let (seen, out) = resampler.process(&input, Vec::new(), &ends);
    assert_eq!(back(&out.unwrap()), vec![0.0, 1023.0, 1024.0, 2047.0]);
    assert_eq!(seen, vec![BLOCK_FRAMES, BLOCK_FRAMES]);
    assert_eq!(resampler.pending_len(), 10);
}

#[test]
fn what_the_converter_learned_goes_with_it() {
    // Each block comes back with the number of the blocks before it.
    let count = |n: u32, _: &[Binary32]| (n + 1, Ok(vec![b(n as f32)]));
    let mut resampler = StreamingResampler::new(44_100, 48_000).unwrap();
    let (n, first) = resampler.process(&vec![b(0.5); BLOCK_FRAMES + 10], 0, &count);
    assert_eq!((n, back(&first.unwrap())), (1, vec![0.0]));
    let (n, second) = resampler.process(&vec![b(0.5); 2 * BLOCK_FRAMES], n, &count);
    assert_eq!((n, back(&second.unwrap())), (3, vec![1.0, 2.0]));
}

#[test]
fn a_refused_block_stays_where_it_is() {
    let mut resampler = StreamingResampler::new(44_100, 48_000).unwrap();
    let input: Vec<Binary32> = vec![b(0.5); 2 * BLOCK_FRAMES + 10];
    let second = |calls: u32, a: &[Binary32]| {
        if calls == 1 {
            (calls + 1, Err("refused".to_string()))
        } else {
            (calls + 1, Ok(a.to_vec()))
        }
    };
    let (calls, out) = resampler.process(&input, 0, &second);
    assert_eq!(calls, 2);
    assert_eq!(out, Err("refused".to_string()));
    assert_eq!(resampler.pending_len(), BLOCK_FRAMES + 10);
}

fn whole(audio: &[Binary32], src_sr: u32, dst_sr: u32) -> Result<Vec<Binary32>, ResampleError> {
    resample_to(audio, src_sr, dst_sr, &|a: &[Binary32], from: u32, to: u32| {
        run(converter(from, to, a.len()), a).1
    })
}

#[test]
fn identity_returns_input() {
    let audio = v(&[0.1_f32, -0.2, 0.3]);
    let out = whole(&audio, 16_000, 16_000).unwrap();
    assert_eq!(out, audio);
}

#[test]
fn empty_input_returns_empty() {
    let out = whole(&[], 44_100, 16_000).unwrap();
    assert!(out.is_empty());
}

#[test]
fn downsample_changes_length_proportionally() {
    let audio = v(&vec![0.0_f32; 48_000]);
    let out = whole(&audio, 48_000, 16_000).unwrap();
    let expected = 16_000_i32;
    let slack = expected / 100;
    let got = out.len() as i32;
    assert!(
        (got - expected).abs() <= slack,
        "expected ≈ {expected} samples (±{slack}), got {got}"
    );
}

#[test]
fn a_refusal_of_the_converter_is_passed_on() {
    let refusal = resample_to(&v(&[0.5]), 48_000, 16_000, &|_: &[Binary32], _: u32, _: u32| {
        Err("bad ratio".to_string())
    });
    match refusal {
        Err(e) => assert_eq!(e.message(), "rubato resampler error: bad ratio"),
        Ok(_) => panic!("expected a refusal"),
    }
    assert_eq!(settle(Ok(v(&[0.5]))).unwrap(), v(&[0.5]));
    assert!(matches!(
        settle(Err("no".to_string())),
        Err(ResampleError::Rubato(m)) if m == "no"
    ));
}

#[test]
fn converted_samples_are_clipped_to_full_scale() {
    let wild = |_: &[Binary32], from: u32, to: u32| {
        assert_eq!((from, to), (48_000, 16_000));
        Ok(v(&[2.0, -3.5, 0.25, f32::INFINITY, -1.0]))
    };
    let out = resample_to(&v(&[0.5]), 48_000, 16_000, &wild).unwrap();
    assert_eq!(back(&out), vec![1.0, -1.0, 0.25, 1.0, -1.0]);
    assert_eq!(back(&settle(Ok(v(&[2.0]))).unwrap()), vec![1.0]);
    assert!(back(&settle(Ok(v(&[f32::NAN]))).unwrap())[0].is_nan());

    let same = resample_to(&v(&[2.0]), 48_000, 48_000, &wild).unwrap();
    assert_eq!(back(&same), vec![2.0]);

    let step: Vec<f32> = (0..4_800).map(|i| if i / 100 % 2 == 0 { 1.0 } else { -1.0 }).collect();
    let out = back(&whole(&v(&step), 48_000, 16_000).unwrap());
    assert!(out.iter().all(|x| (-1.0..=1.0).contains(x)));
    assert!(out.iter().any(|&x| x == 1.0));
}

#[test]
fn equal_calls_give_equal_results() {
    let audio = signal(4_410);
    let kept = RefCell::new(Converters::new());
    let built = RefCell::new(0);
    let build = |from: u32, to: u32, frames: usize| {
        *built.borrow_mut() += 1;
        Ok(converter(from, to, frames))
    };
    let reset = |mut c: SincFixedIn<f32>| {
        c.reset();
        c
    };
    let convert = |a: &[Binary32], from: u32, to: u32| {
        kept.borrow_mut().convert(a, from, to, &build, &reset, &run)
    };
    let first = resample_to(&audio, 44_100, 16_000, &convert).unwrap();
    assert_eq!(first, whole(&audio, 44_100, 16_000).unwrap());
    let other = resample_to(&signal(512), 44_100, 16_000, &convert).unwrap();
    assert_eq!(other, whole(&signal(512), 44_100, 16_000).unwrap());
    resample_to(&audio, 44_100, 48_000, &convert).unwrap();
    assert_eq!(resample_to(&audio, 44_100, 16_000, &convert).unwrap(), first);
    assert_eq!(resample_to(&audio, 44_100, 16_000, &convert).unwrap(), first);
    assert_eq!(*built.borrow(), 3);
}

#[test]
fn a_converter_that_cannot_be_built_is_not_kept() {
    let mut kept: Converters<u8> = Converters::new();
    let reset = |c: u8| c + 10;
    let run_once = |c: u8, a: &[Binary32]| (c + 1, Ok(vec![b(f32::from(c)); a.len()]));
    let refuse = |_: u32, _: u32, _: usize| Err("ratio".to_string());
    assert_eq!(
        kept.convert(&v(&[0.5]), 1, 2, &refuse, &reset, &run_once),
        Err("ratio".to_string())
    );
    let build = |_: u32, _: u32, _: usize| Ok(3);
    let mut answer = || kept.convert(&v(&[0.5]), 1, 2, &build, &reset, &run_once).unwrap();
    assert_eq!(back(&answer()), vec![3.0]);
    assert_eq!(back(&answer()), vec![14.0]);
}

#[test]
fn the_error_can_be_had_in_words() {
    let refused = |_: &[Binary32], _: u32, _: u32| Err("bad ratio".to_string());
    assert_eq!(
        resample_in_words(&v(&[0.5]), 48_000, 16_000, &refused),
        Err("rubato resampler error: bad ratio".to_string())
    );
    assert_eq!(resample_in_words(&[], 48_000, 16_000, &refused), Ok(vec![]));
}
