use audio_forensics::splice::compute_jumps;
use audio_forensics::splice::detect_splices;
use audio_forensics::splice::scan_jumps;
use audio_forensics::splice::window_for;

fn flat_with_outlier(len: usize, at: usize) -> Vec<i32> {
    let mut samples: Vec<i32> = vec![10_000; len];
    samples[at] = 900_000;
    samples
}

#[test]
fn window_is_ten_milliseconds() {
    assert_eq!(window_for(44_100), 441);
    assert_eq!(window_for(48_000), 480);
    assert_eq!(window_for(11_025), 110);
    assert_eq!(window_for(150), 2);
    assert_eq!(window_for(149), 1);
    assert_eq!(window_for(50), 1);
    assert_eq!(window_for(49), 0);
    assert_eq!(window_for(0), 0);
}

#[test]
fn jumps_are_the_steps_between_neighbours() {
    assert_eq!(compute_jumps(&vec![1, 4, 2, 2, -7]), vec![3, 2, 0, 9]);
    assert_eq!(compute_jumps(&vec![i32::MIN, i32::MAX, i32::MIN]), vec![u32::MAX, u32::MAX]);
    assert!(compute_jumps(&vec![5]).is_empty());
    assert!(compute_jumps(&Vec::new()).is_empty());
}

#[test]
fn single_outlier_is_reported_once() {
    let at: usize = 20_000;
    let samples = flat_with_outlier(44_100, at);
    let offsets = detect_splices(&samples, 44_100);
    assert_eq!(offsets, vec![19_999]);
    let window = window_for(44_100);
    assert!(at - offsets[0] <= window);
    let seconds = offsets[0] as f64 / 44_100.0;
    assert!((seconds - at as f64 / 44_100.0).abs() <= 0.01);
}

#[test]
fn single_outlier_is_found_wherever_the_window_fits() {
    for at in [442usize, 443, 1_000, 22_050, 43_000, 43_658] {
        let samples = flat_with_outlier(44_100, at);
        assert_eq!(detect_splices(&samples, 44_100), vec![at - 1]);
    }
}

#[test]
fn outlier_at_the_first_scanned_position_is_reported_there() {
    let samples = flat_with_outlier(44_100, 441);
    assert_eq!(detect_splices(&samples, 44_100), vec![441]);
}

#[test]
fn outlier_near_either_end_is_not_reported() {
    for at in [0usize, 1, 100, 440, 43_659, 43_660, 44_000, 44_099] {
        let samples = flat_with_outlier(44_100, at);
        assert_eq!(detect_splices(&samples, 44_100), Vec::<usize>::new());
    }
}

#[test]
fn two_outliers_far_apart_are_both_reported() {
    let mut samples = flat_with_outlier(44_100, 10_000);
    samples[30_000] = -900_000;
    assert_eq!(detect_splices(&samples, 44_100), vec![9_999, 29_999]);
}

#[test]
fn outliers_within_two_windows_are_reported_once() {
    let mut samples = flat_with_outlier(44_100, 10_000);
    samples[10_500] = 900_000;
    assert_eq!(detect_splices(&samples, 44_100), vec![9_999]);
}

#[test]
fn a_step_is_reported_where_it_happens() {
    let mut samples: Vec<i32> = vec![0; 20_000];
    samples.extend(vec![500_000; 20_000]);
    assert_eq!(detect_splices(&samples, 44_100), vec![19_999]);
}

#[test]
fn a_jump_must_exceed_the_floor() {
    let mut samples: Vec<i32> = vec![0; 44_100];
    samples[20_000] = 100_000;
    assert_eq!(detect_splices(&samples, 44_100), Vec::<usize>::new());
    samples[20_000] = 100_001;
    assert_eq!(detect_splices(&samples, 44_100), vec![19_999]);
}

#[test]
fn a_jump_must_exceed_eight_times_the_local_mean() {
    let steps: Vec<u32> = vec![0, 0, 200_000, 200_000, 200_000, 0, 0, 0, 0, 0, 0, 0];
    assert_eq!(scan_jumps(&steps, 2), Vec::<usize>::new());
    let mut steps: Vec<u32> = vec![0; 40];
    steps[20] = 800_000;
    steps[15] = 100_000;
    assert_eq!(scan_jumps(&steps, 8), vec![20]);
    steps[14] = 700_001;
    assert_eq!(scan_jumps(&steps, 8), Vec::<usize>::new());
    let mut steps: Vec<u32> = vec![100_000; 40];
    steps[20] = 900_000;
    assert_eq!(scan_jumps(&steps, 8), Vec::<usize>::new());
    let mut steps: Vec<u32> = vec![50_000; 100];
    steps[50] = 900_000;
    assert_eq!(scan_jumps(&steps, 20), vec![50]);
    let mut steps: Vec<u32> = vec![0; 40];
    steps[20] = 800_000;
    steps[21] = 800_000;
    assert_eq!(scan_jumps(&steps, 8), Vec::<usize>::new());
    assert_eq!(scan_jumps(&steps, 9), vec![20]);
}

#[test]
fn noisy_recording_without_a_jump_has_no_splice() {
    let mut samples: Vec<i32> = Vec::new();
    for k in 0..44_100 {
        samples.push(if k % 2 == 0 { 300_000 } else { -300_000 });
    }
    assert_eq!(detect_splices(&samples, 44_100), Vec::<usize>::new());
}

#[test]
fn silence_has_no_splice() {
    let samples: Vec<i32> = vec![0; 44_100];
    assert_eq!(detect_splices(&samples, 44_100), Vec::<usize>::new());
}

#[test]
fn short_recordings_have_no_splice() {
    assert_eq!(detect_splices(&Vec::new(), 44_100), Vec::<usize>::new());
    assert_eq!(detect_splices(&vec![0], 44_100), Vec::<usize>::new());
    assert_eq!(detect_splices(&vec![0, 900_000], 44_100), Vec::<usize>::new());
    let samples = flat_with_outlier(883, 441);
    assert_eq!(detect_splices(&samples, 44_100), Vec::<usize>::new());
    let samples = flat_with_outlier(884, 441);
    assert_eq!(detect_splices(&samples, 44_100), vec![441]);
}

#[test]
fn without_a_window_nothing_is_a_splice() {
    let samples: Vec<i32> = vec![0, 900_000, 0, 900_000];
    assert_eq!(detect_splices(&samples, 49), Vec::<usize>::new());
    assert_eq!(detect_splices(&samples, 0), Vec::<usize>::new());
    assert_eq!(scan_jumps(&vec![900_000, 900_000], 0), Vec::<usize>::new());
}

#[test]
fn splices_come_out_in_ascending_order_two_windows_apart() {
    let mut samples: Vec<i32> = vec![0; 100_000];
    let mut state: u64 = 99;
    for _ in 0..200 {
        state = state.wrapping_mul(6364136223846793005).wrapping_add(1442695040888963407);
        let at = (state >> 33) as usize % samples.len();
        samples[at] = 800_000;
    }
    let offsets = detect_splices(&samples, 8_000);
    let window = window_for(8_000);
    assert!(!offsets.is_empty());
    for pair in offsets.windows(2) {
        assert!(pair[0] + 2 * window <= pair[1]);
    }
    for at in offsets {
        assert!(at >= window);
        assert!(at + window < samples.len() - 1);
    }
}
