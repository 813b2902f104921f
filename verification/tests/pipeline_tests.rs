use audio_forensics::enf::detect_enf;
use audio_forensics::forensics::analyze_forensics;
use audio_forensics::spectrogram::place_by_index;
use audio_forensics::spectrogram::plan_spectrogram;
use audio_forensics::spectrogram::Spectrogram;
use audio_forensics::units::DEFAULT_FFT_SIZE;
use audio_forensics::units::DEFAULT_HOP;
use realfft::RealFftPlanner;

fn levels_of_frame(samples: &[f32], start: usize, fft_size: usize, bins: usize) -> Vec<i32> {
    let mut planner = RealFftPlanner::<f32>::new();
    let fft = planner.plan_fft_forward(fft_size);
    let mut input: Vec<f32> = Vec::with_capacity(fft_size);
    for i in 0..fft_size {
        let window =
            0.5 * (1.0 - (2.0 * std::f32::consts::PI * i as f32 / fft_size as f32).cos());
        input.push(samples[start + i] * window);
    }
    let mut spectrum = fft.make_output_vec();
    fft.process(&mut input, &mut spectrum).unwrap();
    let mut levels: Vec<i32> = Vec::with_capacity(bins);
    for c in spectrum[..bins].iter() {
        let magnitude = (c.re * c.re + c.im * c.im).sqrt();
        let decibels = 20.0 * (magnitude + 1e-10).log10();
        levels.push((decibels as f64 * 1000.0).round() as i32);
    }
    levels
}

fn spectrogram_of(samples: &[f32], sample_rate: u32, max_freq: u32) -> Spectrogram {
    let plan =
        plan_spectrogram(samples.len(), sample_rate, max_freq, DEFAULT_FFT_SIZE, DEFAULT_HOP)
            .unwrap();
    let mut tagged: Vec<(usize, Vec<i32>)> = Vec::new();
    for (k, start) in plan.starts.iter().enumerate().rev() {
        tagged.push((k, levels_of_frame(samples, *start, DEFAULT_FFT_SIZE, plan.bins)));
    }
    Spectrogram::assemble(place_by_index(tagged).unwrap(), DEFAULT_HOP).unwrap()
}

fn sine(frequency: f32, sample_rate: u32, len: usize, amplitude: f32) -> Vec<f32> {
    (0..len)
        .map(|i| {
            let phase = 2.0 * std::f64::consts::PI * frequency as f64 * i as f64
                / sample_rate as f64;
            amplitude * phase.sin() as f32
        })
        .collect()
}

fn to_units(samples: &[f32]) -> Vec<i32> {
    samples.iter().map(|s| (*s as f64 * 1_000_000.0).round() as i32).collect()
}

#[test]
fn one_second_gives_83_frames_of_371_bins() {
    let samples = sine(1000.0, 44_100, 44_100, 0.5);
    let spectrogram = spectrogram_of(&samples, 44_100, 8_000);
    assert_eq!(spectrogram.frame_count(), 83);
    assert_eq!(spectrogram.bin_count(), 371);
    assert_eq!(spectrogram.starts()[82], 82 * 512);
}

#[test]
fn sine_peaks_at_the_bin_nearest_to_its_frequency() {
    let samples = sine(1000.0, 44_100, 44_100, 0.5);
    let spectrogram = spectrogram_of(&samples, 44_100, 8_000);
    let nearest: usize = 46;
    for frame in spectrogram.frames() {
        let loudest = (0..frame.len()).max_by_key(|bin| frame[*bin]).unwrap();
        assert_eq!(loudest, nearest);
        assert!(frame[nearest] >= frame[nearest - 3] + 20_000);
        assert!(frame[nearest] >= frame[nearest + 4] + 20_000);
    }
}

#[test]
fn silence_lies_at_the_floor_in_every_bin() {
    let samples: Vec<f32> = vec![0.0; 44_100];
    let spectrogram = spectrogram_of(&samples, 44_100, 8_000);
    assert_eq!(spectrogram.frame_count(), 83);
    for frame in spectrogram.frames() {
        for level in frame {
            assert_eq!(*level, -200_000);
        }
    }
    let report = analyze_forensics(&to_units(&samples), 44_100, &spectrogram, 8_000).unwrap();
    assert_eq!(report.clipped_count, 0);
    assert!(!report.has_clipping);
    assert_eq!(report.dynamic_range, None);
    assert_eq!(report.snr, None);
    assert!(!report.enf_present);
    assert!(report.splice_offsets.is_empty());
}

#[test]
fn same_samples_give_the_same_spectrogram() {
    let samples = sine(440.0, 48_000, 20_000, 0.25);
    let a = spectrogram_of(&samples, 48_000, 12_000);
    let b = spectrogram_of(&samples, 48_000, 12_000);
    assert_eq!(a.frames(), b.frames());
    assert_eq!(a.starts(), b.starts());
}

#[test]
fn too_few_samples_give_an_empty_spectrogram() {
    let samples = sine(440.0, 44_100, 2_047, 0.25);
    let spectrogram = spectrogram_of(&samples, 44_100, 8_000);
    assert_eq!(spectrogram.frame_count(), 0);
    assert!(!detect_enf(&spectrogram, 44_100, 8_000).present);
}

#[test]
fn sine_has_a_dynamic_range_of_three_decibels() {
    let samples = to_units(&sine(1000.0, 44_100, 44_100, 0.5));
    let spectrogram = Spectrogram::assemble(Vec::new(), DEFAULT_HOP).unwrap();
    let report = analyze_forensics(&samples, 44_100, &spectrogram, 8_000).unwrap();
    let ratio = report.dynamic_range.unwrap();
    let decibels = 10.0 * (ratio.num as f64 / ratio.den as f64).log10();
    assert!((decibels - 3.0103).abs() < 0.01);
    let snr = report.snr.unwrap();
    let decibels = 10.0 * (snr.num as f64 / snr.den as f64).log10();
    assert!(decibels.abs() < 0.1);
    assert_eq!(report.clipped_count, 0);
    assert!(report.splice_offsets.is_empty());
}
