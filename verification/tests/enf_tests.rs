use audio_forensics::enf::detect_enf;
use audio_forensics::enf::EnfFinding;
use audio_forensics::spectrogram::Spectrogram;

const BACKGROUND: i32 = -60_000;

fn flat(frames: usize, bins: usize) -> Vec<Vec<i32>> {
    vec![vec![BACKGROUND; bins]; frames]
}

fn boost(frames: &mut Vec<Vec<i32>>, bins: std::ops::Range<usize>, by: i32) {
    for frame in frames.iter_mut() {
        for bin in bins.clone() {
            frame[bin] += by;
        }
    }
}

fn absent() -> EnfFinding {
    EnfFinding { present: false, grid_freq: 0, strength: 0 }
}

#[test]
fn hum_at_60_hz_is_found() {
    let mut frames = flat(4, 800);
    boost(&mut frames, 59..62, 10_000);
    let spectrogram = Spectrogram::assemble(frames, 512).unwrap();
    let finding = detect_enf(&spectrogram, 44_100, 800);
    assert!(finding.present);
    assert_eq!(finding.grid_freq, 60);
    assert_eq!(finding.strength, 9_962);
    assert!((finding.strength - 10_000).abs() <= 1_000);
}

#[test]
fn hum_at_60_hz_in_a_wide_spectrogram() {
    let mut frames = flat(4, 8_000);
    boost(&mut frames, 59..62, 10_000);
    let spectrogram = Spectrogram::assemble(frames, 512).unwrap();
    let finding = detect_enf(&spectrogram, 44_100, 8_000);
    assert_eq!(finding, EnfFinding { present: true, grid_freq: 60, strength: 9_996 });
}

#[test]
fn flat_spectrogram_has_no_hum() {
    let spectrogram = Spectrogram::assemble(flat(4, 800), 512).unwrap();
    assert_eq!(detect_enf(&spectrogram, 44_100, 800), absent());
}

#[test]
fn hum_at_50_hz_is_found() {
    let mut frames = flat(3, 800);
    boost(&mut frames, 49..52, 8_000);
    let spectrogram = Spectrogram::assemble(frames, 512).unwrap();
    let finding = detect_enf(&spectrogram, 44_100, 800);
    assert_eq!(finding, EnfFinding { present: true, grid_freq: 50, strength: 7_970 });
}

#[test]
fn hum_at_both_frequencies_is_reported_at_50_hz() {
    let mut frames = flat(3, 800);
    boost(&mut frames, 49..52, 8_000);
    boost(&mut frames, 59..62, 20_000);
    let spectrogram = Spectrogram::assemble(frames, 512).unwrap();
    let finding = detect_enf(&spectrogram, 44_100, 800);
    assert!(finding.present);
    assert_eq!(finding.grid_freq, 50);
    assert_eq!(finding.strength, 7_895);
}

#[test]
fn hum_must_stand_more_than_five_decibels_above_the_background() {
    let mut frames = flat(5, 6);
    boost(&mut frames, 2..5, 10_000);
    let spectrogram = Spectrogram::assemble(frames, 512).unwrap();
    assert_eq!(detect_enf(&spectrogram, 44_100, 100), absent());
    let mut frames = flat(5, 6);
    boost(&mut frames, 2..5, 10_002);
    let spectrogram = Spectrogram::assemble(frames, 512).unwrap();
    let finding = detect_enf(&spectrogram, 44_100, 100);
    assert_eq!(finding, EnfFinding { present: true, grid_freq: 50, strength: 5_001 });
}

#[test]
fn grid_frequency_at_or_above_half_the_sample_rate_is_skipped() {
    let mut frames = flat(4, 800);
    boost(&mut frames, 59..62, 10_000);
    let spectrogram = Spectrogram::assemble(frames, 512).unwrap();
    assert_eq!(detect_enf(&spectrogram, 120, 800), absent());
    assert_eq!(detect_enf(&spectrogram, 110, 800), absent());
    assert_eq!(detect_enf(&spectrogram, 121, 800).grid_freq, 60);
    let mut frames = flat(4, 800);
    boost(&mut frames, 49..52, 10_000);
    let spectrogram = Spectrogram::assemble(frames, 512).unwrap();
    assert_eq!(detect_enf(&spectrogram, 100, 800), absent());
    assert_eq!(detect_enf(&spectrogram, 101, 800).grid_freq, 50);
    assert_eq!(detect_enf(&spectrogram, 0, 800), absent());
}

#[test]
fn target_bin_is_the_nearest_bin() {
    let mut frames = flat(2, 371);
    boost(&mut frames, 2..5, 10_000);
    let spectrogram = Spectrogram::assemble(frames, 512).unwrap();
    let finding = detect_enf(&spectrogram, 44_100, 8_000);
    assert_eq!(finding.grid_freq, 50);
    assert_eq!(finding.strength, 6_585);
    let mut frames = flat(2, 371);
    boost(&mut frames, 4..5, 30_000);
    let spectrogram = Spectrogram::assemble(frames, 512).unwrap();
    let finding = detect_enf(&spectrogram, 44_100, 8_000);
    assert_eq!(finding.grid_freq, 60);
    assert_eq!(finding.strength, 9_919);
}

#[test]
fn target_bin_below_two_or_outside_is_skipped() {
    let mut frames = flat(4, 100);
    boost(&mut frames, 0..3, 30_000);
    let spectrogram = Spectrogram::assemble(frames, 512).unwrap();
    assert_eq!(detect_enf(&spectrogram, 44_100, 5_000), absent());
    assert_eq!(detect_enf(&spectrogram, 44_100, 4_000).grid_freq, 60);
    assert_eq!(detect_enf(&spectrogram, 44_100, 3_000).grid_freq, 50);
    let mut frames = flat(4, 100);
    boost(&mut frames, 97..100, 30_000);
    let spectrogram = Spectrogram::assemble(frames, 512).unwrap();
    assert_eq!(detect_enf(&spectrogram, 44_100, 60), absent());
    assert_eq!(detect_enf(&spectrogram, 44_100, 30), absent());
}

#[test]
fn band_ends_with_the_frame() {
    let mut frames = flat(3, 4);
    boost(&mut frames, 2..4, 20_000);
    let spectrogram = Spectrogram::assemble(frames, 512).unwrap();
    let finding = detect_enf(&spectrogram, 44_100, 66);
    assert_eq!(finding, EnfFinding { present: true, grid_freq: 50, strength: 10_000 });
}

#[test]
fn fewer_than_three_bins_or_no_frame_have_no_hum() {
    let mut frames = flat(4, 2);
    boost(&mut frames, 1..2, 30_000);
    let spectrogram = Spectrogram::assemble(frames, 512).unwrap();
    assert_eq!(detect_enf(&spectrogram, 44_100, 50), absent());
    let spectrogram = Spectrogram::assemble(Vec::new(), 512).unwrap();
    assert_eq!(detect_enf(&spectrogram, 44_100, 8_000), absent());
    let spectrogram = Spectrogram::assemble(vec![Vec::new(); 3], 512).unwrap();
    assert_eq!(detect_enf(&spectrogram, 44_100, 8_000), absent());
}

#[test]
fn no_frequency_range_has_no_hum() {
    let mut frames = flat(4, 800);
    boost(&mut frames, 59..62, 10_000);
    let spectrogram = Spectrogram::assemble(frames, 512).unwrap();
    assert_eq!(detect_enf(&spectrogram, 44_100, 0), absent());
}

#[test]
fn extreme_levels_do_not_overflow() {
    let mut frames: Vec<Vec<i32>> = vec![vec![i32::MIN; 800]; 3];
    for frame in frames.iter_mut() {
        for bin in 59..62 {
            frame[bin] = i32::MAX;
        }
    }
    let spectrogram = Spectrogram::assemble(frames, 512).unwrap();
    let finding = detect_enf(&spectrogram, 44_100, 800);
    assert_eq!(finding.grid_freq, 60);
    assert_eq!(finding.strength, 4_278_861_167);
}

#[test]
fn detecting_twice_gives_the_same_finding() {
    let mut frames = flat(4, 800);
    boost(&mut frames, 59..62, 10_000);
    let spectrogram = Spectrogram::assemble(frames, 512).unwrap();
    assert_eq!(detect_enf(&spectrogram, 44_100, 800), detect_enf(&spectrogram, 44_100, 800));
}
