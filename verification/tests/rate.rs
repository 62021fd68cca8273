use moonshine_core::video::pacer::Pacer;
use moonshine_core::video::rate::RateFactor;

fn factor(value: f32) -> RateFactor {
    RateFactor { bits: value.to_bits() }
}

fn by_floats(value: f32, bitrate: usize) -> u64 {
    if value > 0.0 && bitrate > 0 {
        ((bitrate as f64 / 8.0) * value.max(1.0) as f64) as u64
    } else {
        0
    }
}

#[test]
fn eight_times_the_bitrate() {
    assert_eq!(factor(8.0).pacing_rate(20_000_000), 20_000_000);
    assert_eq!(factor(2.5).pacing_rate(8_000), 2_500);
}

#[test]
fn zero_factor_or_bitrate_disables_pacing() {
    assert_eq!(factor(0.0).pacing_rate(20_000_000), 0);
    assert_eq!(factor(-0.0).pacing_rate(20_000_000), 0);
    assert_eq!(factor(-3.0).pacing_rate(20_000_000), 0);
    assert_eq!(factor(f32::NAN).pacing_rate(20_000_000), 0);
    assert_eq!(factor(f32::NEG_INFINITY).pacing_rate(20_000_000), 0);
    assert_eq!(factor(8.0).pacing_rate(0), 0);
    assert_eq!(factor(8.0).clamped_for(0), None);
    assert_eq!(factor(0.0).clamped_for(1), None);
}

#[test]
fn small_factors_are_clamped_to_one() {
    assert_eq!(factor(0.25).clamped_for(1), Some(factor(1.0)));
    assert_eq!(factor(1.5).clamped_for(1), Some(factor(1.5)));
    assert_eq!(factor(0.25).pacing_rate(8_000), 1_000);
    assert_eq!(factor(f32::from_bits(1)).pacing_rate(8_000), 1_000);
    assert_eq!(factor(1.0).pacing_rate(8_000), 1_000);
}

#[test]
fn huge_factors_saturate() {
    assert_eq!(factor(f32::INFINITY).pacing_rate(1), u64::MAX);
    assert_eq!(factor(f32::MAX).pacing_rate(1), u64::MAX);
    assert_eq!(factor(1.0e19).pacing_rate(16), u64::MAX);
    assert_eq!(factor(1.0e19).pacing_rate(8), 9_999_999_980_506_447_872);
}

#[test]
fn a_rate_is_never_below_the_bitrate() {
    for bitrate in [1usize, 7, 8, 9, 1_000_003, 150_000_000, (1 << 53) - 1] {
        for value in [f32::from_bits(1), 0.5, 1.0, 1.0000001, 3.3, 8.0] {
            assert!(factor(value).pacing_rate(bitrate) >= bitrate as u64 / 8);
        }
    }
    // Beyond 53 bits the bitrate itself is rounded.
    assert_eq!(factor(1.0).pacing_rate((1 << 57) + 8), 1 << 54);
}

#[test]
fn rates_agree_with_double_precision() {
    let values = [
        1.0f32, 1.0000001, 1.1, 1.5, 2.0, 3.0000002, 7.9999995, 8.0, 10.7, 1.0e3, 1.6777215e7,
        1.6777217e7, 6.7e7, 1.3e8, 4.2e9, 1.8e19, 3.0e38, 0.3, 0.9999999, 1.0e-40,
    ];
    let mut seed: u64 = 0x9e37_79b9_7f4a_7c15;
    for round in 0..4000u32 {
        seed = seed.wrapping_mul(6_364_136_223_846_793_005).wrapping_add(1_442_695_040_888_963_407);
        let bitrate = (seed >> (round % 64)) as usize;
        for value in values {
            assert_eq!(factor(value).pacing_rate(bitrate), by_floats(value, bitrate));
        }
        let any = f32::from_bits((seed >> 16) as u32);
        assert_eq!(factor(any).pacing_rate(bitrate), by_floats(any, bitrate));
        let near = f32::from_bits(0x3f80_0000 + ((seed >> 20) as u32 & 0x0fff_ffff));
        assert_eq!(factor(near).pacing_rate(bitrate), by_floats(near, bitrate));
    }
    for bitrate in [usize::MAX, 1 << 53, (1 << 53) + 1, (1 << 53) + 3, (1 << 54) + 2, (1 << 54) + 6] {
        for value in values {
            assert_eq!(factor(value).pacing_rate(bitrate), by_floats(value, bitrate));
        }
    }
}

#[test]
fn pacers_start_from_the_rate() {
    let pacer = Pacer::new(factor(8.0), 20_000_000, 0);
    assert_eq!(pacer.rate, 20_000_000);
    assert_eq!(pacer.min_gap_nanos, 1_000_000);
    assert_eq!(pacer.max_gso_segments, 1);
    assert_eq!(Pacer::new(factor(0.0), 20_000_000, 64).rate, 0);
    assert_eq!(Pacer::new(factor(0.0), 20_000_000, 64).max_gso_segments, 64);
}

#[test]
fn bits_order_positive_factors() {
    let values = [f32::from_bits(1), 1.0e-40, 1.2e-38, 0.5, 0.9999999, 1.0, 1.0000001, 8.0, f32::MAX];
    for pair in values.windows(2) {
        assert!(pair[0] < pair[1]);
        assert!(factor(pair[0]).bits < factor(pair[1]).bits);
    }
}

#[test]
fn rate_grows_with_factor_and_bitrate() {
    let values = [f32::from_bits(1), 0.5, 1.0, 1.0000001, 3.3, 8.0, 1.0e9, f32::MAX, f32::INFINITY];
    let bitrates = [0usize, 1, 7, 8, 20_000_000, (1 << 53) + 1, (1 << 53) + 2, 1 << 60, usize::MAX];
    for pair in values.windows(2) {
        for bitrate in bitrates {
            assert!(factor(pair[0]).pacing_rate(bitrate) <= factor(pair[1]).pacing_rate(bitrate));
        }
    }
    for pair in bitrates.windows(2) {
        for value in values {
            assert!(factor(value).pacing_rate(pair[0]) <= factor(value).pacing_rate(pair[1]));
        }
    }
}

#[test]
fn rate_is_factor_times_bitrate() {
    // A byte per second is all that is lost at these magnitudes.
    for (value, numerator) in [(1.0f32, 2u64), (1.5, 3), (2.0, 4), (3.5, 7), (8.0, 16)] {
        for bitrate in [1usize, 9, 12_345, 20_000_000, 999_999_937] {
            let rate = factor(value).pacing_rate(bitrate);
            assert!(rate * 16 <= bitrate as u64 * numerator);
            assert!(bitrate as u64 * numerator < (rate + 1) * 16);
        }
    }
}
