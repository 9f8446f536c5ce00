use mellonella::binary32::Binary32;
use mellonella::binary64::Binary64;

fn single(bits: u32) -> Binary32 {
    Binary32 { bits }
}

fn double(bits: u64) -> Binary64 {
    Binary64 { bits }
}

fn same32(got: Binary32, want: f32) -> bool {
    if want.is_nan() {
        f32::from_bits(got.bits).is_nan()
    } else {
        got.bits == want.to_bits()
    }
}

fn same64(got: Binary64, want: f64) -> bool {
    if want.is_nan() {
        f64::from_bits(got.bits).is_nan()
    } else {
        got.bits == want.to_bits()
    }
}

struct Dice {
    state: u64,
}

impl Dice {
    fn next(&mut self) -> u64 {
        self.state = self
            .state
            .wrapping_mul(6364136223846793005)
            .wrapping_add(1442695040888963407);
        let x = self.state;
        (x ^ (x >> 29)).wrapping_mul(0xbf58476d1ce4e5b9) ^ (x >> 32)
    }
}

fn patterns32() -> Vec<u32> {
    let mut all = vec![
        0,
        0x8000_0000,
        1,
        0x8000_0001,
        2,
        0x007f_ffff,
        0x0080_0000,
        0x0080_0001,
        0x00ff_ffff,
        0x3f80_0000,
        0xbf80_0000,
        0x3f7f_ffff,
        0x3f80_0001,
        0x3400_0000,
        0x3380_0000,
        0x4b80_0000,
        0x4b7f_ffff,
        0x7f7f_ffff,
        0xff7f_ffff,
        0x7f80_0000,
        0xff80_0000,
        0x7fc0_0000,
        0xffc0_0001,
        0x7f00_0000,
        0x4000_0000,
        0x4040_0000,
        0x3eaa_aaab,
    ];
    let mut dice = Dice { state: 12345 };
    for _ in 0..60 {
        all.push(dice.next() as u32);
    }
    for _ in 0..40 {
        // Numbers of ordinary size.
        all.push(0x3000_0000 + (dice.next() as u32 % 0x2000_0000));
    }
    all
}

fn patterns64() -> Vec<u64> {
    let mut all = vec![
        0,
        0x8000_0000_0000_0000,
        1,
        0x000f_ffff_ffff_ffff,
        0x0010_0000_0000_0000,
        0x3ff0_0000_0000_0000,
        0xbff0_0000_0000_0000,
        0x3fef_ffff_ffff_ffff,
        0x3ca0_0000_0000_0000,
        0x4340_0000_0000_0000,
        0x7fef_ffff_ffff_ffff,
        0x7ff0_0000_0000_0000,
        0xfff0_0000_0000_0000,
        0x7ff8_0000_0000_0000,
        0x4008_0000_0000_0000,
    ];
    let mut dice = Dice { state: 777 };
    for _ in 0..40 {
        all.push(dice.next());
    }
    for _ in 0..40 {
        all.push(0x3f00_0000_0000_0000 + (dice.next() % 0x0200_0000_0000_0000));
    }
    all
}

#[test]
fn single_precision_sums_and_differences_are_those_of_the_machine() {
    for &x in &patterns32() {
        for &y in &patterns32() {
            let (a, b) = (f32::from_bits(x), f32::from_bits(y));
            assert!(same32(single(x).plus(single(y)), a + b), "{a:e} + {b:e}");
            assert!(same32(single(x).minus(single(y)), a - b), "{a:e} - {b:e}");
        }
    }
}

#[test]
fn single_precision_products_and_quotients_are_those_of_the_machine() {
    for &x in &patterns32() {
        for &y in &patterns32() {
            let (a, b) = (f32::from_bits(x), f32::from_bits(y));
            assert!(same32(single(x).times(single(y)), a * b), "{a:e} * {b:e}");
            assert!(same32(single(x).over(single(y)), a / b), "{a:e} / {b:e}");
        }
    }
}

#[test]
fn single_precision_comparisons_are_those_of_the_machine() {
    for &x in &patterns32() {
        for &y in &patterns32() {
            let (a, b) = (f32::from_bits(x), f32::from_bits(y));
            assert_eq!(single(x).less(single(y)), a < b, "{a:e} < {b:e}");
            assert_eq!(single(x).at_most(single(y)), a <= b, "{a:e} <= {b:e}");
            assert_eq!(
                single(x).ranks_below(single(y)),
                a.total_cmp(&b) == std::cmp::Ordering::Less
            );
            let larger = single(x).maximum(single(y));
            let smaller = single(x).minimum(single(y));
            if a.is_nan() && b.is_nan() {
                assert!(larger.is_nan() && smaller.is_nan());
            } else {
                assert_eq!(f32::from_bits(larger.bits), a.max(b));
                assert_eq!(f32::from_bits(smaller.bits), a.min(b));
            }
        }
    }
}

#[test]
fn single_precision_roots_signs_and_classes_are_those_of_the_machine() {
    for &x in &patterns32() {
        let a = f32::from_bits(x);
        assert!(same32(single(x).square_root(), a.sqrt()), "sqrt {a:e}");
        assert_eq!(single(x).negate().bits, (-a).to_bits());
        assert_eq!(single(x).magnitude().bits, a.abs().to_bits());
        assert_eq!(single(x).is_nan(), a.is_nan());
        assert_eq!(single(x).is_finite(), a.is_finite());
    }
    for n in [0u64, 1, 2, 3, 16_777_215, 16_777_216, 16_777_217, 16_777_219, u64::MAX] {
        assert_eq!(Binary32::from_count(n).bits, (n as f32).to_bits(), "{n}");
    }
}

#[test]
fn single_precision_bounds_hold_numbers() {
    let low = single((-1.0f32).to_bits());
    let high = single(1.0f32.to_bits());
    for &x in &patterns32() {
        let a = f32::from_bits(x);
        assert!(same32(single(x).clamp(low, high), a.clamp(-1.0, 1.0)), "{a:e}");
    }
}

#[test]
fn double_precision_arithmetic_is_that_of_the_machine() {
    for &x in &patterns64() {
        for &y in &patterns64() {
            let (a, b) = (f64::from_bits(x), f64::from_bits(y));
            assert!(same64(double(x).plus(double(y)), a + b), "{a:e} + {b:e}");
            assert!(same64(double(x).minus(double(y)), a - b), "{a:e} - {b:e}");
            assert!(same64(double(x).times(double(y)), a * b), "{a:e} * {b:e}");
            assert!(same64(double(x).over(double(y)), a / b), "{a:e} / {b:e}");
            assert_eq!(double(x).less(double(y)), a < b);
            assert_eq!(double(x).at_most(double(y)), a <= b);
            assert_eq!(
                double(x).ranks_below(double(y)),
                a.total_cmp(&b) == std::cmp::Ordering::Less
            );
            if !a.is_nan() || !b.is_nan() {
                assert_eq!(f64::from_bits(double(x).maximum(double(y)).bits), a.max(b));
                assert_eq!(f64::from_bits(double(x).minimum(double(y)).bits), a.min(b));
            }
        }
    }
}

#[test]
fn double_precision_roots_signs_and_classes_are_those_of_the_machine() {
    let low = double((-2.5f64).to_bits());
    let high = double(2.5f64.to_bits());
    for &x in &patterns64() {
        let a = f64::from_bits(x);
        assert!(same64(double(x).square_root(), a.sqrt()), "sqrt {a:e}");
        assert_eq!(double(x).negate().bits, (-a).to_bits());
        assert_eq!(double(x).magnitude().bits, a.abs().to_bits());
        assert_eq!(double(x).is_nan(), a.is_nan());
        assert_eq!(double(x).is_finite(), a.is_finite());
        assert!(same64(double(x).clamp(low, high), a.clamp(-2.5, 2.5)));
    }
    for n in [0u64, 1, 9_007_199_254_740_991, 9_007_199_254_740_993, u64::MAX] {
        assert_eq!(Binary64::from_count(n).bits, (n as f64).to_bits(), "{n}");
    }
}

#[test]
fn conversions_between_the_widths_are_those_of_the_machine() {
    for &x in &patterns32() {
        assert!(same64(Binary64::widen(single(x)), f64::from(f32::from_bits(x))));
    }
    let mut wide = patterns64();
    for &x in &patterns32() {
        let a = f64::from(f32::from_bits(x));
        wide.push(a.to_bits());
        wide.push((a * 1.0000000123).to_bits());
        wide.push((a * 3.7e-40).to_bits());
    }
    for &x in &wide {
        let a = f64::from_bits(x);
        assert!(same32(double(x).narrow(), a as f32), "{a:e}");
    }
}

#[test]
fn whole_parts_are_held_between_zero_and_a_limit() {
    for &x in &patterns64() {
        let a = f64::from_bits(x);
        for limit in [0u64, 1, 1000, u64::MAX] {
            assert_eq!(double(x).whole_at_most(limit), (a as u64).min(limit), "{a:e}");
        }
    }
}
