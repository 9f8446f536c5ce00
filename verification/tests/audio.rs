use mellonella::audio::broadcast_mono;
use mellonella::audio::fade_and_clamp;
use mellonella::audio::force_length;
use mellonella::audio::rms;
use mellonella::audio::silent;
use mellonella::audio::EDGE_FADE_SAMPLES;
use mellonella::binary32::Binary32;
use mellonella::gating::cos_similarity;
use mellonella::vectors::blend;
use mellonella::vectors::copy;
use mellonella::vectors::copy_rows;
use mellonella::vectors::dot_product;
use mellonella::vectors::elementwise_mean;

fn b(x: f32) -> Binary32 {
    Binary32 { bits: x.to_bits() }
}

fn f(x: Binary32) -> f32 {
    f32::from_bits(x.bits)
}

fn v(xs: &[f32]) -> Vec<Binary32> {
    xs.iter().map(|&x| b(x)).collect()
}

fn back(xs: &[Binary32]) -> Vec<f32> {
    xs.iter().map(|&x| f(x)).collect()
}

#[test]
fn force_length_truncates_and_pads() {
    let mut long = v(&vec![1.0; 10]);
    force_length(&mut long, 4);
    assert_eq!(back(&long), vec![1.0; 4]);
    let mut short = v(&vec![1.0; 2]);
    force_length(&mut short, 4);
    assert_eq!(back(&short), vec![1.0, 1.0, 0.0, 0.0]);
}

#[test]
fn edge_fade_reaches_zero_at_both_ends() {
    let mut audio = v(&vec![1.0; EDGE_FADE_SAMPLES * 3]);
    fade_and_clamp(&mut audio);
    assert_eq!(f(audio[0]), 0.0);
    assert_eq!(f(audio[audio.len() - 1]), 0.0);
    assert_eq!(f(audio[EDGE_FADE_SAMPLES]), 1.0);
}

#[test]
fn fade_and_clamp_bounds_the_interior() {
    let mut audio = v(&vec![4.0; EDGE_FADE_SAMPLES * 3]);
    audio[EDGE_FADE_SAMPLES * 2] = b(-7.0);
    fade_and_clamp(&mut audio);
    assert_eq!(f(audio[EDGE_FADE_SAMPLES]), 1.0);
    assert_eq!(f(audio[EDGE_FADE_SAMPLES * 2]), -1.0);
}

#[test]
fn fade_and_clamp_handles_tiny_blocks() {
    for len in 0..4_usize {
        let mut audio = v(&vec![2.0; len]);
        fade_and_clamp(&mut audio);
        assert_eq!(audio.len(), len);
        assert!(back(&audio).iter().all(|s| (-1.0..=1.0).contains(s)));
    }
}

#[test]
fn the_fade_is_linear() {
    let mut audio = v(&vec![0.5; EDGE_FADE_SAMPLES * 4]);
    fade_and_clamp(&mut audio);
    for k in 0..EDGE_FADE_SAMPLES {
        let gain = k as f32 / EDGE_FADE_SAMPLES as f32;
        assert_eq!(f(audio[k]), 0.5 * gain);
        assert_eq!(f(audio[audio.len() - 1 - k]), 0.5 * gain);
    }
    assert!(back(&audio)[EDGE_FADE_SAMPLES..3 * EDGE_FADE_SAMPLES]
        .iter()
        .all(|&x| x == 0.5));
}

#[test]
fn levels_are_root_mean_squares() {
    assert_eq!(f(rms(&[])), 0.0);
    assert_eq!(f(rms(&v(&[3.0, -4.0, 0.0, 0.0]))), 2.5);
    assert_eq!(f(rms(&v(&[0.25; 7]))), 0.25);
    assert_eq!(back(&silent(3)), vec![0.0, 0.0, 0.0]);
}

#[test]
fn mono_is_repeated_on_every_channel() {
    let mut data = v(&[9.0; 7]);
    broadcast_mono(&v(&[1.0, 2.0, 3.0]), 2, &mut data);
    assert_eq!(back(&data), vec![1.0, 1.0, 2.0, 2.0, 3.0, 3.0, 9.0]);
    let mut data = v(&[9.0; 3]);
    broadcast_mono(&v(&[1.0, 2.0, 3.0]), 1, &mut data);
    assert_eq!(back(&data), vec![1.0, 2.0, 3.0]);
}

#[test]
fn cosines_take_the_overlapping_length() {
    assert_eq!(f(cos_similarity(&v(&[1.0, 0.0]), &v(&[1.0, 0.0]))), 1.0);
    assert_eq!(f(cos_similarity(&v(&[1.0, 0.0]), &v(&[0.0, 1.0]))), 0.0);
    assert_eq!(f(cos_similarity(&v(&[2.0]), &v(&[-0.5, 7.0]))), -1.0);
    assert_eq!(f(cos_similarity(&v(&[0.0, 0.0]), &v(&[1.0, 1.0]))), 0.0);
    assert_eq!(f(cos_similarity(&[], &v(&[1.0]))), 0.0);
    let (p, q) = ([0.3f32, -0.7, 0.2], [0.1f32, 0.4, -0.9]);
    let dot: f32 = p.iter().zip(&q).map(|(x, y)| x * y).sum();
    let norms = p.iter().map(|x| x * x).sum::<f32>().sqrt()
        * q.iter().map(|x| x * x).sum::<f32>().sqrt();
    assert_eq!(f(cos_similarity(&v(&p), &v(&q))), dot / norms);
}

#[test]
fn vectors_are_combined_element_by_element() {
    assert_eq!(f(dot_product(&v(&[1.0, 2.0, 3.0]), &v(&[4.0, 5.0]))), 14.0);
    let mixed = blend(b(0.25), &v(&[4.0, 8.0]), b(0.75), &v(&[0.0, 4.0]));
    assert_eq!(back(&mixed), vec![1.0, 5.0]);
    assert!(elementwise_mean(&[]).is_none());
    let one = v(&[0.1, -0.3]);
    assert_eq!(elementwise_mean(&[one.clone()]).unwrap(), one);
    let mean = elementwise_mean(&[v(&[1.0, 2.0]), v(&[2.0, 4.0]), v(&[6.0, 0.0])]).unwrap();
    assert_eq!(
        back(&mean),
        vec![9.0 * (1.0f32 / 3.0), 6.0 * (1.0f32 / 3.0)]
    );
    assert_eq!(copy(&one), one);
    assert_eq!(copy_rows(&[one.clone(), one.clone()]), vec![one.clone(), one]);
}
