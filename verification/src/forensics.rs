use vstd::prelude::*;
use crate::enf::detect_enf;
use crate::enf::enf_grid;
use crate::enf::enf_strength;
use crate::error::AudioError;
use crate::quality::PowerRatio;
use crate::quality::clipped_count;
use crate::quality::has_clipping;
use crate::quality::lemma_peak_positive;
use crate::quality::lemma_silence_quality;
use crate::quality::peak;
use crate::quality::quality_metrics;
use crate::quality::sum_squares;
use crate::snr::chunk_count;
use crate::snr::estimate_snr;
use crate::snr::lemma_power_scale_positive;
use crate::snr::lemma_silence_snr;
use crate::snr::noise_power;
use crate::snr::power_scale;
use crate::snr::scaled_powers;
use crate::snr::signal_power;
use crate::snr::snr_frame_size;
use crate::spectrogram::Spectrogram;
use crate::splice::detect_splices;
use crate::splice::offsets_view;
use crate::splice::splice_offsets;
use crate::units::CLIP_RATIO_DIVISOR;

verus! {

/// What the analysis found in one recording.
#[derive(Clone, Debug)]
pub struct ForensicReport {
    /// Mains hum was found in the spectrogram.
    pub enf_present: bool,
    /// How far the hum stands above the background, in thousandths of a
    /// decibel; zero where there is none.
    pub enf_strength: i64,
    /// Grid frequency of the hum in hertz; zero where there is none.
    pub grid_freq: u32,
    /// Positions of the suspected splices, in scan order. A splice at
    /// position `p` lies `p / sample_rate` seconds into the recording.
    pub splice_offsets: Vec<usize>,
    /// Signal power over noise power; `None`, read as 0 dB, where the
    /// recording has no chunk or its loud chunks have no power.
    pub snr: Option<PowerRatio>,
    /// Squared peak over mean power; `None`, read as 0 dB, where the
    /// recording is silent.
    pub dynamic_range: Option<PowerRatio>,
    pub has_clipping: bool,
    pub clipped_count: usize,
}

/// The report says of the samples and of the spectrogram what the four
/// detectors find in them.
pub open spec fn describes(
    report: ForensicReport,
    samples: Seq<i32>,
    sample_rate: nat,
    levels: Seq<Seq<i32>>,
    max_freq: nat,
) -> bool {
    let powers = scaled_powers(samples, snr_frame_size(sample_rate));
    let scale = power_scale(samples.len(), snr_frame_size(sample_rate));
    &&& report.clipped_count == clipped_count(samples)
    &&& report.has_clipping == has_clipping(samples, CLIP_RATIO_DIVISOR as nat)
    &&& report.dynamic_range.is_some() <==> sum_squares(samples) > 0
    &&& report.dynamic_range matches Some(ratio) ==> ratio.num == peak(samples) * peak(samples)
        * samples.len() && ratio.den == sum_squares(samples)
    &&& report.snr.is_some() <==> chunk_count(samples.len(), snr_frame_size(sample_rate)) > 0
        && signal_power(powers) > 0
    &&& report.snr matches Some(ratio) ==> ratio.num == signal_power(powers) && ratio.den
        == noise_power(powers, scale)
    &&& offsets_view(report.splice_offsets@) == splice_offsets(samples, sample_rate)
    &&& report.enf_present <==> enf_grid(levels, sample_rate, max_freq) != 0
    &&& report.grid_freq == enf_grid(levels, sample_rate, max_freq)
    &&& report.enf_strength == enf_strength(levels, sample_rate, max_freq)
}

/// Runs the four detectors over a recording and its spectrogram. Fails only
/// where there are no samples.
pub fn analyze_forensics(
    samples: &Vec<i32>,
    sample_rate: u32,
    spectrogram: &Spectrogram,
    max_freq: u32,
) -> (result: Result<ForensicReport, AudioError>)
    requires
        spectrogram.wf(),
    ensures
        result.is_err() <==> samples@.len() == 0,
        result matches Err(e) ==> e == AudioError::InputUnavailable,
        result matches Ok(report) ==> describes(
            report,
            samples@,
            sample_rate as nat,
            spectrogram.levels(),
            max_freq as nat,
        ),
{
    if samples.len() == 0 {
        return Err(AudioError::InputUnavailable);
    }
    let quality = quality_metrics(samples, CLIP_RATIO_DIVISOR);
    let snr = estimate_snr(samples, sample_rate);
    let splice_offsets = detect_splices(samples, sample_rate);
    let hum = detect_enf(spectrogram, sample_rate, max_freq);
    Ok(
        ForensicReport {
            enf_present: hum.present,
            enf_strength: hum.strength,
            grid_freq: hum.grid_freq,
            splice_offsets,
            snr,
            dynamic_range: quality.dynamic_range,
            has_clipping: quality.has_clipping,
            clipped_count: quality.clipped_count,
        },
    )
}

/// The report of a silent recording: nothing is clipped, there is no splice,
/// and neither a dynamic range nor a signal-to-noise ratio, so that both
/// read as 0 dB.
pub proof fn lemma_silent_report(
    report: ForensicReport,
    samples: Seq<i32>,
    sample_rate: nat,
    levels: Seq<Seq<i32>>,
    max_freq: nat,
)
    requires
        describes(report, samples, sample_rate, levels, max_freq),
        forall|i: int| 0 <= i < samples.len() ==> #[trigger] samples[i] == 0,
    ensures
        report.clipped_count == 0,
        !report.has_clipping,
        report.dynamic_range.is_none(),
        report.splice_offsets@.len() == 0,
        report.snr.is_none(),
{
    lemma_silence_quality(samples, CLIP_RATIO_DIVISOR as nat);
    if chunk_count(samples.len(), snr_frame_size(sample_rate)) > 0 {
        lemma_silence_snr(samples, snr_frame_size(sample_rate));
    }
    crate::splice::lemma_silence_no_splice(samples, sample_rate);
    assert(offsets_view(report.splice_offsets@).len() == report.splice_offsets@.len());
}

/// Every ratio in a report has a positive numerator and a positive
/// denominator, so the level it stands for is finite.
pub proof fn lemma_report_levels_finite(
    report: ForensicReport,
    samples: Seq<i32>,
    sample_rate: nat,
    levels: Seq<Seq<i32>>,
    max_freq: nat,
)
    requires
        describes(report, samples, sample_rate, levels, max_freq),
    ensures
        report.snr matches Some(ratio) ==> ratio.num > 0 && ratio.den > 0,
        report.dynamic_range matches Some(ratio) ==> ratio.num > 0 && ratio.den > 0,
{
    if report.snr.is_some() {
        lemma_power_scale_positive(samples.len(), snr_frame_size(sample_rate));
    }
    if report.dynamic_range.is_some() {
        lemma_peak_positive(samples);
        let p = peak(samples) as int;
        let n = samples.len() as int;
        assert(p * p * n > 0) by (nonlinear_arith)
            requires
                p > 0,
                n > 0,
        ;
    }
}

/// Two reports of the same recording and spectrogram say the same.
pub proof fn lemma_report_determined(
    a: ForensicReport,
    b: ForensicReport,
    samples: Seq<i32>,
    sample_rate: nat,
    levels: Seq<Seq<i32>>,
    max_freq: nat,
)
    requires
        describes(a, samples, sample_rate, levels, max_freq),
        describes(b, samples, sample_rate, levels, max_freq),
    ensures
        a.enf_present == b.enf_present,
        a.enf_strength == b.enf_strength,
        a.grid_freq == b.grid_freq,
        a.splice_offsets@ == b.splice_offsets@,
        a.snr == b.snr,
        a.dynamic_range == b.dynamic_range,
        a.has_clipping == b.has_clipping,
        a.clipped_count == b.clipped_count,
{
    let x = a.splice_offsets@;
    let y = b.splice_offsets@;
    assert(offsets_view(x).len() == x.len());
    assert(offsets_view(y).len() == y.len());
    assert forall|k: int| 0 <= k < x.len() implies x[k] == y[k] by {
        assert(offsets_view(x)[k] == x[k] as int);
        assert(offsets_view(y)[k] == y[k] as int);
    }
    assert(x =~= y);
}

} // verus!
