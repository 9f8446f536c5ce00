use mellonella::binary32::Binary32;
use mellonella::binary64::Binary64;
use mellonella::playback::PlaybackBuffer;
use mellonella::playback::PlaybackStatus;
use mellonella::playback::MAX_CLOCK_CORRECTION;
use mellonella::playback::OUTPUT_PREBUFFER_MS;
use mellonella::playback::OUTPUT_TARGET_BUFFER_MS;
use mellonella::playback::PLAYBACK_FADE_MS;

fn b(x: f32) -> Binary32 {
    Binary32 { bits: x.to_bits() }
}

fn v(xs: &[f32]) -> Vec<Binary32> {
    xs.iter().map(|&x| b(x)).collect()
}

fn back(xs: &[Binary32]) -> Vec<f32> {
    xs.iter().map(|&x| f32::from_bits(x.bits)).collect()
}

fn d(x: Binary64) -> f64 {
    f64::from_bits(x.bits)
}

#[test]
fn playback_buffer_primes_before_emitting() {
    let mut playback = PlaybackBuffer::new(1_000);
    let mut output = v(&vec![1.0; 10]);
    playback.push(&v(&vec![0.25; 63]));
    assert_eq!(playback.render(&mut output), PlaybackStatus::Prebuffering);
    assert!(back(&output).iter().all(|&sample| sample == 0.0));

    playback.push(&v(&[0.25; 40]));
    assert!(playback.can_render(output.len()));
    assert_eq!(playback.render(&mut output), PlaybackStatus::Rendered);
    let output = back(&output);
    assert!(output.iter().all(|sample| (0.0..=0.25).contains(sample)));
    assert!(output.iter().skip(5).any(|&sample| sample > 0.0));
}

#[test]
fn playback_buffer_corrects_independent_device_clock_drift() {
    let mut playback = PlaybackBuffer::new(48_000);
    playback.push(&v(&vec![0.0; playback.target_fill]));
    let centred = d(playback.playback_step());
    playback.push(&v(&vec![0.0; playback.target_fill]));
    let overfilled = d(playback.playback_step());
    playback.samples.truncate(playback.target_fill / 2);
    let underfilled = d(playback.playback_step());
    let max_clock_correction = f64::from_bits(MAX_CLOCK_CORRECTION);
    assert!((centred - 1.0).abs() < f64::EPSILON);
    assert!(overfilled > 1.0, "overfilled queue must drain faster");
    assert!(underfilled < 1.0, "underfilled queue must drain slower");
    assert!(overfilled <= 1.0 + max_clock_correction);
    assert!(underfilled >= 1.0 - max_clock_correction);
}

#[test]
fn playback_buffer_timings_follow_the_output_device_sample_rate() {
    for sample_rate in [44_100_u32, 48_000, 96_000] {
        let playback = PlaybackBuffer::new(sample_rate);
        let expected = |milliseconds: u32| {
            usize::try_from(u64::from(sample_rate) * u64::from(milliseconds) / 1_000)
                .expect("test sample count fits usize")
        };
        assert_eq!(playback.start_fill, expected(OUTPUT_PREBUFFER_MS));
        assert_eq!(playback.target_fill, expected(OUTPUT_TARGET_BUFFER_MS));
        assert_eq!(playback.fade_total, expected(PLAYBACK_FADE_MS));
    }
}

#[test]
fn an_empty_request_is_rendered_at_once() {
    let mut playback = PlaybackBuffer::new(1_000);
    let mut output = Vec::new();
    assert_eq!(playback.render(&mut output), PlaybackStatus::Rendered);
    assert!(output.is_empty());
    assert_eq!(playback.buffered_samples(), 0);
}

#[test]
fn a_dry_buffer_fades_out_and_fills_up_again() {
    let mut playback = PlaybackBuffer::new(1_000);
    playback.push(&v(&vec![0.5; 64]));
    let mut output = v(&vec![1.0; 32]);
    assert!(playback.can_render(32));
    assert_eq!(playback.render(&mut output), PlaybackStatus::Rendered);
    let mut output = v(&vec![1.0; 40]);
    assert_eq!(playback.render(&mut output), PlaybackStatus::Underrun);
    let faded = back(&output);
    assert!(faded[0] <= 0.5 && faded[39] == 0.0);
    assert!(faded.windows(2).all(|w| w[0] >= w[1]));
    // Nothing is heard again before the prebuffer is full.
    playback.push(&v(&vec![0.5; 10]));
    let mut output = v(&vec![1.0; 8]);
    assert_eq!(playback.render(&mut output), PlaybackStatus::Prebuffering);
    assert!(back(&output).iter().all(|&x| x == 0.0));
}

#[test]
fn playback_begins_with_a_fade() {
    let mut playback = PlaybackBuffer::new(1_000);
    playback.push(&v(&vec![0.5; 200]));
    let mut output = v(&vec![1.0; 20]);
    assert!(playback.can_render(20));
    assert_eq!(playback.render(&mut output), PlaybackStatus::Rendered);
    let heard = back(&output);
    assert_eq!(heard[0], 0.0);
    assert!(heard[..5].windows(2).all(|w| w[0] < w[1]));
    assert!(heard[6..].iter().all(|&x| x == 0.5));
    assert!(playback.buffered_samples() <= 181);
}

#[test]
fn a_read_behind_the_end_is_foreseen() {
    let mut playback = PlaybackBuffer::new(1_000);
    // Nothing is read while the buffer fills up.
    assert!(playback.can_render(10));
    assert!(!playback.reads_in_range(10));
    playback.push(&v(&vec![0.5; 100]));
    assert!(playback.can_render(10));
    assert!(playback.reads_in_range(10));
    assert!(!playback.reads_in_range(1_000));
    assert!(playback.can_render(0));
}

#[test]
fn every_sample_of_misfit_moves_the_rate() {
    for rate in [8_000, 44_100, 48_000, 192_000] {
        let mut playback = PlaybackBuffer::new(rate);
        let target = playback.target_fill;
        playback.push(&vec![Binary32 { bits: 0 }; target - 1]);
        let below = d(playback.playback_step());
        playback.push(&[Binary32 { bits: 0 }]);
        let at = d(playback.playback_step());
        playback.push(&[Binary32 { bits: 0 }]);
        let above = d(playback.playback_step());
        assert!(below < 1.0 && at == 1.0 && above > 1.0, "{rate}");
        playback.push(&vec![Binary32 { bits: 0 }; 10 * target]);
        assert_eq!(d(playback.playback_step()), 1.002);
    }
}
