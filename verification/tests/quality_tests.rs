use audio_forensics::quality::quality_metrics;
use audio_forensics::quality::sample_magnitude;
use audio_forensics::quality::PowerRatio;
use audio_forensics::units::CLIP_LEVEL;
use audio_forensics::units::CLIP_RATIO_DIVISOR;
use audio_forensics::units::FULL_SCALE;

#[test]
fn magnitude_is_the_absolute_value() {
    assert_eq!(sample_magnitude(0), 0);
    assert_eq!(sample_magnitude(5), 5);
    assert_eq!(sample_magnitude(-5), 5);
    assert_eq!(sample_magnitude(i32::MAX), 2_147_483_647);
    assert_eq!(sample_magnitude(i32::MIN), 2_147_483_648);
}

#[test]
fn full_scale_samples_are_counted_as_clipped() {
    let mut samples: Vec<i32> = vec![0; 100_000];
    for k in 0..20 {
        samples[k * 5_000 + 17] = FULL_SCALE;
    }
    let metrics = quality_metrics(&samples, CLIP_RATIO_DIVISOR);
    assert!(metrics.has_clipping);
    assert_eq!(metrics.clipped_count, 20);
}

#[test]
fn one_full_scale_sample_in_a_short_recording_is_clipping() {
    let mut samples: Vec<i32> = vec![0; 5_000];
    samples[4_999] = FULL_SCALE;
    let metrics = quality_metrics(&samples, CLIP_RATIO_DIVISOR);
    assert!(metrics.has_clipping);
    assert_eq!(metrics.clipped_count, 1);
}

#[test]
fn clipping_needs_more_than_one_in_ten_thousand() {
    let mut samples: Vec<i32> = vec![0; 20_000];
    samples[3] = FULL_SCALE;
    samples[9] = -FULL_SCALE;
    let metrics = quality_metrics(&samples, CLIP_RATIO_DIVISOR);
    assert_eq!(metrics.clipped_count, 2);
    assert!(!metrics.has_clipping);
    samples[11] = FULL_SCALE;
    let metrics = quality_metrics(&samples, CLIP_RATIO_DIVISOR);
    assert_eq!(metrics.clipped_count, 3);
    assert!(metrics.has_clipping);
}

#[test]
fn clipping_ratio_can_be_chosen() {
    let mut samples: Vec<i32> = vec![0; 1_000];
    for k in 0..10 {
        samples[k] = FULL_SCALE;
    }
    assert!(!quality_metrics(&samples, 100).has_clipping);
    assert!(quality_metrics(&samples, 101).has_clipping);
    assert!(quality_metrics(&samples, 1).clipped_count == 10);
    assert!(!quality_metrics(&samples, 1).has_clipping);
}

#[test]
fn clip_level_itself_is_not_clipped() {
    let level = CLIP_LEVEL as i32;
    let samples: Vec<i32> = vec![level, -level, level + 1, -level - 1, 0];
    let metrics = quality_metrics(&samples, CLIP_RATIO_DIVISOR);
    assert_eq!(metrics.clipped_count, 2);
    assert!(metrics.has_clipping);
}

#[test]
fn dynamic_range_is_squared_peak_over_mean_square() {
    let samples: Vec<i32> = vec![3, -4];
    let metrics = quality_metrics(&samples, CLIP_RATIO_DIVISOR);
    assert_eq!(metrics.dynamic_range, Some(PowerRatio { num: 32, den: 25 }));
    let samples: Vec<i32> = vec![500_000, -250_000, 0, 100_000];
    let metrics = quality_metrics(&samples, CLIP_RATIO_DIVISOR);
    let peak_squared: u128 = 250_000_000_000;
    let sum: u128 = 250_000_000_000 + 62_500_000_000 + 10_000_000_000;
    assert_eq!(metrics.dynamic_range, Some(PowerRatio { num: peak_squared * 4, den: sum }));
}

#[test]
fn constant_recording_has_a_dynamic_range_of_one() {
    let samples: Vec<i32> = vec![-700; 50];
    let ratio = quality_metrics(&samples, CLIP_RATIO_DIVISOR).dynamic_range.unwrap();
    assert_eq!(ratio.num, ratio.den);
    assert_eq!(ratio.den, 490_000 * 50);
}

#[test]
fn extreme_samples_do_not_overflow() {
    let samples: Vec<i32> = vec![i32::MIN, i32::MAX, i32::MIN];
    let metrics = quality_metrics(&samples, CLIP_RATIO_DIVISOR);
    let low: u128 = 1 << 31;
    let high: u128 = (1 << 31) - 1;
    assert_eq!(metrics.clipped_count, 3);
    assert_eq!(
        metrics.dynamic_range,
        Some(PowerRatio { num: low * low * 3, den: 2 * low * low + high * high })
    );
}

#[test]
fn silence_has_no_dynamic_range_and_no_clipping() {
    let samples: Vec<i32> = vec![0; 44_100];
    let metrics = quality_metrics(&samples, CLIP_RATIO_DIVISOR);
    assert_eq!(metrics.dynamic_range, None);
    assert!(!metrics.has_clipping);
    assert_eq!(metrics.clipped_count, 0);
}

#[test]
fn no_samples_give_nothing() {
    let samples: Vec<i32> = Vec::new();
    let metrics = quality_metrics(&samples, CLIP_RATIO_DIVISOR);
    assert_eq!(metrics.dynamic_range, None);
    assert!(!metrics.has_clipping);
    assert_eq!(metrics.clipped_count, 0);
}
