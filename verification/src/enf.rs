use vstd::prelude::*;
use crate::spectrogram::Spectrogram;
use crate::spectrogram::bin_count;
use crate::spectrogram::rectangular;
use crate::spectrogram::rows;
use crate::units::ENF_THRESHOLD;
use crate::units::GRID_FREQ_FIRST;
use crate::units::GRID_FREQ_SECOND;
use crate::units::round_div;

verus! {

/// Whether mains hum was found, at which grid frequency, and how far it
/// stands above the background, in thousandths of a decibel. Frequency and
/// strength are zero where no hum was found.
#[derive(Clone, Copy, Debug, PartialEq, Eq, Structural)]
pub struct EnfFinding {
    pub present: bool,
    pub grid_freq: u32,
    pub strength: i64,
}

/// Sum of the levels of the bins `lo..hi` of one frame.
pub open spec fn band_sum(frame: Seq<i32>, lo: int, hi: int) -> int
    recommends
        0 <= lo <= hi <= frame.len(),
    decreases hi - lo,
{
    if hi <= lo {
        0
    } else {
        band_sum(frame, lo, hi - 1) + frame[hi - 1]
    }
}

/// Sum of the levels of the bins `lo..hi` over all frames.
pub open spec fn band_total(levels: Seq<Seq<i32>>, lo: int, hi: int) -> int
    decreases levels.len(),
{
    if levels.len() == 0 {
        0
    } else {
        band_total(levels.drop_last(), lo, hi) + band_sum(levels.last(), lo, hi)
    }
}

/// The bin nearest to `grid_freq` where `bins` bins reach up to `max_freq`.
pub open spec fn target_bin(grid_freq: nat, max_freq: nat, bins: nat) -> nat
    recommends
        max_freq > 0,
{
    round_div(grid_freq * bins, max_freq)
}

/// End of the band around the target bin: two bins above it, or the end of
/// the frame if that comes first.
pub open spec fn band_end(target: nat, bins: nat) -> nat {
    if target + 2 < bins {
        target + 2
    } else {
        bins
    }
}

/// A grid frequency is looked at when it lies below half the sample rate,
/// the frames have at least three bins, there is a frame, and the target bin
/// is neither one of the lowest two nor outside the frame.
pub open spec fn is_candidate(
    levels: Seq<Seq<i32>>,
    grid_freq: nat,
    sample_rate: nat,
    max_freq: nat,
) -> bool {
    let bins = bin_count(levels);
    &&& max_freq > 0
    &&& 2 * grid_freq < sample_rate
    &&& bins >= 3
    &&& levels.len() > 0
    &&& 2 <= target_bin(grid_freq, max_freq, bins) < bins
}

/// Numerator of the strength: the mean level of the band around `target`
/// minus the mean level of all bins, times the denominator.
pub open spec fn strength_num(levels: Seq<Seq<i32>>, target: nat) -> int {
    let bins = bin_count(levels);
    let lo = target - 1;
    let hi = band_end(target, bins);
    band_total(levels, lo, hi as int) * bins - band_total(levels, 0, bins as int) * (hi - lo)
}

/// Denominator of the strength: the width of the band times the number of
/// levels in the spectrogram.
pub open spec fn strength_den(levels: Seq<Seq<i32>>, target: nat) -> int {
    let bins = bin_count(levels);
    (band_end(target, bins) - (target - 1)) * (levels.len() * bins)
}

/// Hum at `grid_freq` is present when the frequency is a candidate and the
/// band around it stands more than the threshold above the background.
pub open spec fn hum_present(
    levels: Seq<Seq<i32>>,
    grid_freq: nat,
    sample_rate: nat,
    max_freq: nat,
) -> bool {
    let target = target_bin(grid_freq, max_freq, bin_count(levels));
    &&& is_candidate(levels, grid_freq, sample_rate, max_freq)
    &&& strength_num(levels, target) > ENF_THRESHOLD * strength_den(levels, target)
}

/// How far the band around `grid_freq` stands above the background, rounded
/// down to a thousandth of a decibel.
pub open spec fn hum_strength(levels: Seq<Seq<i32>>, grid_freq: nat, max_freq: nat) -> int {
    let target = target_bin(grid_freq, max_freq, bin_count(levels));
    strength_num(levels, target) / strength_den(levels, target)
}

/// The grid frequency whose hum is reported: the first of the two that is
/// present, or zero.
pub open spec fn enf_grid(levels: Seq<Seq<i32>>, sample_rate: nat, max_freq: nat) -> nat {
    if hum_present(levels, GRID_FREQ_FIRST as nat, sample_rate, max_freq) {
        GRID_FREQ_FIRST as nat
    } else if hum_present(levels, GRID_FREQ_SECOND as nat, sample_rate, max_freq) {
        GRID_FREQ_SECOND as nat
    } else {
        0
    }
}

/// The strength that is reported: that of the reported grid frequency, or zero.
pub open spec fn enf_strength(levels: Seq<Seq<i32>>, sample_rate: nat, max_freq: nat) -> int {
    let grid = enf_grid(levels, sample_rate, max_freq);
    if grid == 0 {
        0
    } else {
        hum_strength(levels, grid, max_freq)
    }
}

/// A sum of levels is at most as many times the largest magnitude of a level.
pub proof fn lemma_band_sum_bound(frame: Seq<i32>, lo: int, hi: int)
    requires
        0 <= lo <= hi <= frame.len(),
    ensures
        -((hi - lo) * 0x8000_0000) <= band_sum(frame, lo, hi) <= (hi - lo) * 0x8000_0000,
    decreases hi - lo,
{
    if hi > lo {
        lemma_band_sum_bound(frame, lo, hi - 1);
    }
}

/// The sum of a band over all frames is bounded by the number of levels in it.
pub proof fn lemma_band_total_bound(levels: Seq<Seq<i32>>, lo: int, hi: int)
    requires
        0 <= lo <= hi,
        forall|k: int| 0 <= k < levels.len() ==> hi <= (#[trigger] levels[k]).len(),
    ensures
        -(levels.len() * (hi - lo) * 0x8000_0000) <= band_total(levels, lo, hi) <= levels.len() * (hi
            - lo) * 0x8000_0000,
    decreases levels.len(),
{
    if levels.len() > 0 {
        let init = levels.drop_last();
        assert forall|k: int| 0 <= k < init.len() implies hi <= (#[trigger] init[k]).len() by {
            assert(init[k] == levels[k]);
        }
        lemma_band_total_bound(init, lo, hi);
        assert(hi <= levels[levels.len() - 1].len());
        lemma_band_sum_bound(levels.last(), lo, hi);
        let n = levels.len() as int;
        let w = hi - lo;
        assert((n - 1) * w * 0x8000_0000 + w * 0x8000_0000 == n * w * 0x8000_0000)
            by (nonlinear_arith);
    }
}

/// Sum of the levels of the bins `lo..hi` of one frame.
fn sum_band(frame: &Vec<i32>, lo: usize, hi: usize) -> (total: i128)
    requires
        lo <= hi <= frame@.len(),
    ensures
        total == band_sum(frame@, lo as int, hi as int),
{
    let mut total: i128 = 0;
    let mut b: usize = lo;
    while b < hi
        invariant
            lo <= b <= hi <= frame@.len(),
            total == band_sum(frame@, lo as int, b as int),
        decreases hi - b,
    {
        proof {
            lemma_band_sum_bound(frame@, lo as int, b as int);
        }
        total = total + frame[b] as i128;
        b = b + 1;
    }
    total
}

/// Sum of the levels of the bins `lo..hi` over all frames.
fn total_band(frames: &Vec<Vec<i32>>, lo: usize, hi: usize) -> (total: i128)
    requires
        lo <= hi,
        forall|k: int| 0 <= k < frames@.len() ==> hi <= (#[trigger] rows(frames@)[k]).len(),
        frames@.len() * (hi - lo) <= usize::MAX,
    ensures
        total == band_total(rows(frames@), lo as int, hi as int),
{
    let ghost levels = rows(frames@);
    let count: usize = frames.len();
    let mut total: i128 = 0;
    let mut k: usize = 0;
    assert(levels.take(0) =~= Seq::<Seq<i32>>::empty());
    while k < count
        invariant
            lo <= hi,
            levels == rows(frames@),
            count == frames@.len(),
            k <= count,
            forall|j: int| 0 <= j < frames@.len() ==> hi <= (#[trigger] levels[j]).len(),
            count * (hi - lo) <= usize::MAX,
            total == band_total(levels.take(k as int), lo as int, hi as int),
        decreases count - k,
    {
        assert(hi <= levels[k as int].len());
        let part: i128 = sum_band(&frames[k], lo, hi);
        proof {
            let next = levels.take(k + 1);
            assert(next.drop_last() =~= levels.take(k as int));
            assert(next.last() == frames@[k as int]@);
            assert forall|j: int| 0 <= j < next.len() implies hi <= (#[trigger] next[j]).len() by {
                assert(next[j] == levels[j]);
            }
            lemma_band_total_bound(next, lo as int, hi as int);
            let w = hi - lo;
            assert((k + 1) * w * 0x8000_0000 <= 0xffff_ffff_ffff_ffff * 0x8000_0000)
                by (nonlinear_arith)
                requires
                    0 <= k + 1 <= count,
                    0 <= w,
                    count * w <= 0xffff_ffff_ffff_ffff,
            ;
        }
        total = total + part;
        k = k + 1;
    }
    assert(levels.take(count as int) =~= levels);
    total
}

/// The bin nearest to `grid_freq` where `bins` bins reach up to `max_freq`,
/// if it lies below `bins`.
fn find_target_bin(grid_freq: u32, max_freq: u32, bins: usize) -> (target: Option<usize>)
    requires
        max_freq > 0,
    ensures
        target.is_some() <==> target_bin(grid_freq as nat, max_freq as nat, bins as nat) < bins,
        target matches Some(t) ==> t == target_bin(grid_freq as nat, max_freq as nat, bins as nat),
{
    assert(grid_freq * bins <= 0xffff_ffff * 0xffff_ffff_ffff_ffff) by (nonlinear_arith)
        requires
            0 <= grid_freq <= 0xffff_ffff,
            0 <= bins <= 0xffff_ffff_ffff_ffff,
    ;
    let scaled: u128 = (grid_freq as u128) * (bins as u128);
    let nearest: u128 = (2 * scaled + max_freq as u128) / (2 * (max_freq as u128));
    if nearest < bins as u128 {
        Some(nearest as usize)
    } else {
        None
    }
}

/// Looks for hum at one grid frequency. `overall` is the sum of all levels.
fn probe(
    frames: &Vec<Vec<i32>>,
    overall: i128,
    grid_freq: u32,
    sample_rate: u32,
    max_freq: u32,
) -> (strength: Option<i64>)
    requires
        rectangular(rows(frames@)),
        frames@.len() * bin_count(rows(frames@)) <= usize::MAX,
        overall == band_total(rows(frames@), 0, bin_count(rows(frames@)) as int),
    ensures
        strength.is_some() <==> hum_present(
            rows(frames@),
            grid_freq as nat,
            sample_rate as nat,
            max_freq as nat,
        ),
        strength matches Some(s) ==> s == hum_strength(
            rows(frames@),
            grid_freq as nat,
            max_freq as nat,
        ),
{
    let ghost levels = rows(frames@);
    let count: usize = frames.len();
    if max_freq == 0 || 2 * (grid_freq as u64) >= sample_rate as u64 || count == 0 {
        return None;
    }
    let bins: usize = frames[0].len();
    assert(levels[0].len() == bins);
    if bins < 3 {
        return None;
    }
    let target: usize = match find_target_bin(grid_freq, max_freq, bins) {
        Some(t) => t,
        None => {
            return None;
        },
    };
    if target < 2 {
        return None;
    }
    let lo: usize = target - 1;
    let hi: usize = if bins - target > 2 {
        target + 2
    } else {
        bins
    };
    let width: usize = hi - lo;
    proof {
        assert(1 <= width <= 3);
        assert(count * width <= count * bins) by (nonlinear_arith)
            requires
                0 <= width <= bins,
                0 <= count,
        ;
        lemma_band_total_bound(levels, lo as int, hi as int);
        lemma_band_total_bound(levels, 0, bins as int);
    }
    let band: i128 = total_band(frames, lo, hi);
    let ghost cells: int = count * bins;
    proof {
        let b = band as int;
        let o = overall as int;
        assert(count * width * 0x8000_0000 * bins == cells * width * 0x8000_0000)
            by (nonlinear_arith)
            requires
                cells == count * bins,
        ;
        assert(count * (bins - 0) * 0x8000_0000 * width == cells * width * 0x8000_0000)
            by (nonlinear_arith)
            requires
                cells == count * bins,
        ;
        assert(-(cells * width * 0x8000_0000) <= b * bins <= cells * width * 0x8000_0000)
            by (nonlinear_arith)
            requires
                -(count * width * 0x8000_0000) <= b <= count * width * 0x8000_0000,
                count * width * 0x8000_0000 * bins == cells * width * 0x8000_0000,
                bins >= 0,
        ;
        assert(-(cells * width * 0x8000_0000) <= o * width <= cells * width * 0x8000_0000)
            by (nonlinear_arith)
            requires
                -(count * (bins - 0) * 0x8000_0000) <= o <= count * (bins - 0) * 0x8000_0000,
                count * (bins - 0) * 0x8000_0000 * width == cells * width * 0x8000_0000,
                width >= 0,
        ;
        assert(cells * width * 0x8000_0000 <= 0xffff_ffff_ffff_ffff * 3 * 0x8000_0000)
            by (nonlinear_arith)
            requires
                0 <= cells <= 0xffff_ffff_ffff_ffff,
                0 <= width <= 3,
        ;
        assert(0 < cells) by (nonlinear_arith)
            requires
                cells == count * bins,
                count > 0,
                bins > 0,
        ;
        assert(0 < width * cells <= 3 * 0xffff_ffff_ffff_ffff) by (nonlinear_arith)
            requires
                0 < cells <= 0xffff_ffff_ffff_ffff,
                0 < width <= 3,
        ;
        assert((count as i128) * (bins as i128) == cells);
    }
    let num: i128 = band * (bins as i128) - overall * (width as i128);
    let den: i128 = (width as i128) * ((count as i128) * (bins as i128));
    assert(num == strength_num(levels, target as nat));
    assert(den == strength_den(levels, target as nat));
    assert(den == width * cells);
    let threshold: i128 = ENF_THRESHOLD as i128;
    assert(threshold * den <= 5_000 * (3 * 0xffff_ffff_ffff_ffff)) by (nonlinear_arith)
        requires
            threshold == 5_000,
            0 < den <= 3 * 0xffff_ffff_ffff_ffff,
    ;
    if num > threshold * den {
        proof {
            assert(num <= den * 0x1_0000_0000) by (nonlinear_arith)
                requires
                    num <= 2 * (cells * width * 0x8000_0000),
                    den == width * cells,
            ;
            assert(0 <= num / den <= 0x1_0000_0000) by (nonlinear_arith)
                requires
                    0 < den,
                    0 <= num <= den * 0x1_0000_0000,
            ;
        }
        let quotient: u128 = (num as u128) / (den as u128);
        Some(quotient as i64)
    } else {
        None
    }
}

/// Looks for mains hum in the spectrogram: first at the first grid frequency,
/// then at the second. The first that is present is reported, so the second
/// is never reported where both are.
pub fn detect_enf(spectrogram: &Spectrogram, sample_rate: u32, max_freq: u32) -> (finding:
    EnfFinding)
    requires
        spectrogram.wf(),
    ensures
        finding.present <==> enf_grid(spectrogram.levels(), sample_rate as nat, max_freq as nat)
            != 0,
        finding.grid_freq == enf_grid(spectrogram.levels(), sample_rate as nat, max_freq as nat),
        finding.strength == enf_strength(
            spectrogram.levels(),
            sample_rate as nat,
            max_freq as nat,
        ),
{
    let frames = spectrogram.frames();
    let bins: usize = spectrogram.bin_count();
    let overall: i128 = total_band(frames, 0, bins);
    match probe(frames, overall, GRID_FREQ_FIRST, sample_rate, max_freq) {
        Some(strength) => {
            return EnfFinding { present: true, grid_freq: GRID_FREQ_FIRST, strength };
        },
        None => {},
    }
    match probe(frames, overall, GRID_FREQ_SECOND, sample_rate, max_freq) {
        Some(strength) => EnfFinding { present: true, grid_freq: GRID_FREQ_SECOND, strength },
        None => EnfFinding { present: false, grid_freq: 0, strength: 0 },
    }
}

/// Every bin of every frame is at the same level.
pub open spec fn is_flat(levels: Seq<Seq<i32>>, level: i32) -> bool {
    forall|k: int, b: int|
        0 <= k < levels.len() && 0 <= b < levels[k].len() ==> #[trigger] levels[k][b] == level
}

/// The sum of a band of equal levels is their number times the level.
pub proof fn lemma_band_sum_flat(frame: Seq<i32>, lo: int, hi: int, level: i32)
    requires
        0 <= lo <= hi <= frame.len(),
        forall|b: int| lo <= b < hi ==> #[trigger] frame[b] == level,
    ensures
        band_sum(frame, lo, hi) == (hi - lo) * level,
    decreases hi - lo,
{
    if hi > lo {
        lemma_band_sum_flat(frame, lo, hi - 1, level);
        assert(frame[hi - 1] == level);
        assert((hi - 1 - lo) * level + level == (hi - lo) * level) by (nonlinear_arith);
    } else {
        assert((hi - lo) * level == 0) by (nonlinear_arith)
            requires
                hi - lo == 0,
        ;
    }
}

/// The sum of a band over the frames of a flat spectrogram.
pub proof fn lemma_band_total_flat(levels: Seq<Seq<i32>>, lo: int, hi: int, level: i32)
    requires
        0 <= lo <= hi,
        is_flat(levels, level),
        forall|k: int| 0 <= k < levels.len() ==> hi <= (#[trigger] levels[k]).len(),
    ensures
        band_total(levels, lo, hi) == levels.len() * ((hi - lo) * level),
    decreases levels.len(),
{
    if levels.len() > 0 {
        let init = levels.drop_last();
        let last = levels.len() - 1;
        assert forall|k: int, b: int| 0 <= k < init.len() && 0 <= b < init[k].len() implies #[trigger] init[k][b]
            == level by {
            assert(init[k] == levels[k]);
            assert(levels[k][b] == level);
        }
        assert forall|k: int| 0 <= k < init.len() implies hi <= (#[trigger] init[k]).len() by {
            assert(init[k] == levels[k]);
        }
        lemma_band_total_flat(init, lo, hi, level);
        assert(hi <= levels[last].len());
        assert forall|b: int| lo <= b < hi implies #[trigger] levels.last()[b] == level by {
            assert(levels[last][b] == level);
        }
        lemma_band_sum_flat(levels.last(), lo, hi, level);
        let n = levels.len() as int;
        let part = (hi - lo) * level;
        assert((n - 1) * part + part == n * part) by (nonlinear_arith);
    }
}

/// In a flat spectrogram no band stands above the background: no hum is
/// reported, whatever the level.
pub proof fn lemma_flat_spectrogram_no_hum(
    levels: Seq<Seq<i32>>,
    level: i32,
    sample_rate: nat,
    max_freq: nat,
)
    requires
        rectangular(levels),
        is_flat(levels, level),
    ensures
        enf_grid(levels, sample_rate, max_freq) == 0,
        enf_strength(levels, sample_rate, max_freq) == 0,
{
    lemma_flat_no_hum_at(levels, level, GRID_FREQ_FIRST as nat, sample_rate, max_freq);
    lemma_flat_no_hum_at(levels, level, GRID_FREQ_SECOND as nat, sample_rate, max_freq);
}

/// In a flat spectrogram there is no hum at any grid frequency.
pub proof fn lemma_flat_no_hum_at(
    levels: Seq<Seq<i32>>,
    level: i32,
    grid_freq: nat,
    sample_rate: nat,
    max_freq: nat,
)
    requires
        rectangular(levels),
        is_flat(levels, level),
    ensures
        !hum_present(levels, grid_freq, sample_rate, max_freq),
{
    if is_candidate(levels, grid_freq, sample_rate, max_freq) {
        let bins = bin_count(levels) as int;
        let target = target_bin(grid_freq, max_freq, bins as nat);
        let lo = target - 1;
        let hi = band_end(target, bins as nat) as int;
        let count = levels.len() as int;
        lemma_band_total_flat(levels, lo, hi, level);
        lemma_band_total_flat(levels, 0, bins, level);
        let width = hi - lo;
        assert(count * (width * level) * bins - count * ((bins - 0) * level) * width == 0)
            by (nonlinear_arith);
        assert(strength_num(levels, target) == 0);
        assert(strength_den(levels, target) >= 0) by (nonlinear_arith)
            requires
                strength_den(levels, target) == width * (count * bins),
                width >= 0,
                count >= 0,
                bins >= 0,
        ;
    }
}

/// Every bin of every frame is at `level`, except the bins `lo..hi`, which
/// are at `boosted`.
pub open spec fn is_flat_but_band(
    levels: Seq<Seq<i32>>,
    level: i32,
    lo: int,
    hi: int,
    boosted: i32,
) -> bool {
    forall|k: int, b: int|
        0 <= k < levels.len() && 0 <= b < levels[k].len() ==> #[trigger] levels[k][b] == if lo
            <= b < hi {
            boosted
        } else {
            level
        }
}

/// A sum of levels splits at any point between its ends.
pub proof fn lemma_band_sum_split(frame: Seq<i32>, lo: int, mid: int, hi: int)
    requires
        lo <= mid <= hi,
    ensures
        band_sum(frame, lo, hi) == band_sum(frame, lo, mid) + band_sum(frame, mid, hi),
    decreases hi - mid,
{
    if hi > mid {
        lemma_band_sum_split(frame, lo, mid, hi - 1);
    }
}

/// Where the band has the same sum in every frame, its sum over all frames
/// is that sum times the number of frames.
pub proof fn lemma_band_total_uniform(levels: Seq<Seq<i32>>, lo: int, hi: int, sum: int)
    requires
        forall|k: int| 0 <= k < levels.len() ==> band_sum(#[trigger] levels[k], lo, hi) == sum,
    ensures
        band_total(levels, lo, hi) == levels.len() * sum,
    decreases levels.len(),
{
    if levels.len() > 0 {
        let init = levels.drop_last();
        assert forall|k: int| 0 <= k < init.len() implies band_sum(#[trigger] init[k], lo, hi)
            == sum by {
            assert(init[k] == levels[k]);
        }
        lemma_band_total_uniform(init, lo, hi, sum);
        assert(band_sum(levels[levels.len() - 1], lo, hi) == sum);
        let n = levels.len() as int;
        assert((n - 1) * sum + sum == n * sum) by (nonlinear_arith);
    } else {
        assert(0 * sum == 0) by (nonlinear_arith);
    }
}

/// The target bin of a grid frequency in this spectrogram.
pub open spec fn grid_target(levels: Seq<Seq<i32>>, grid_freq: nat, max_freq: nat) -> nat {
    target_bin(grid_freq, max_freq, bin_count(levels))
}

/// Number of bins in the band around a target bin.
pub open spec fn band_width(target: nat, bins: nat) -> int {
    band_end(target, bins) - (target - 1)
}

/// A band around the second grid frequency that stands above an otherwise
/// flat background, clear of the band around the first, is reported as hum
/// at the second grid frequency wherever it passes the threshold. Its
/// strength is the boost less the share by which the band itself raises the
/// background.
pub proof fn lemma_boosted_band_is_hum(
    levels: Seq<Seq<i32>>,
    level: i32,
    boosted: i32,
    sample_rate: nat,
    max_freq: nat,
)
    requires
        rectangular(levels),
        is_candidate(levels, GRID_FREQ_FIRST as nat, sample_rate, max_freq),
        is_candidate(levels, GRID_FREQ_SECOND as nat, sample_rate, max_freq),
        band_end(grid_target(levels, GRID_FREQ_FIRST as nat, max_freq), bin_count(levels))
            < grid_target(levels, GRID_FREQ_SECOND as nat, max_freq),
        is_flat_but_band(
            levels,
            level,
            grid_target(levels, GRID_FREQ_SECOND as nat, max_freq) - 1,
            band_end(grid_target(levels, GRID_FREQ_SECOND as nat, max_freq), bin_count(levels))
                as int,
            boosted,
        ),
        (boosted - level) * (bin_count(levels) - band_width(
            grid_target(levels, GRID_FREQ_SECOND as nat, max_freq),
            bin_count(levels),
        )) > ENF_THRESHOLD * bin_count(levels),
    ensures
        enf_grid(levels, sample_rate, max_freq) == GRID_FREQ_SECOND,
        enf_strength(levels, sample_rate, max_freq) == ((boosted - level) * (bin_count(levels)
            - band_width(
            grid_target(levels, GRID_FREQ_SECOND as nat, max_freq),
            bin_count(levels),
        ))) / (bin_count(levels) as int),
{
    let bins = bin_count(levels) as int;
    let count = levels.len() as int;
    let first = target_bin(GRID_FREQ_FIRST as nat, max_freq, bins as nat);
    let second = target_bin(GRID_FREQ_SECOND as nat, max_freq, bins as nat);
    let lo1 = first - 1;
    let hi1 = band_end(first, bins as nat) as int;
    let lo2 = second - 1;
    let hi2 = band_end(second, bins as nat) as int;
    let w1 = hi1 - lo1;
    let w2 = hi2 - lo2;
    let boost = boosted - level;
    let whole = bins * level + w2 * boost;
    assert forall|k: int| 0 <= k < count implies band_sum(#[trigger] levels[k], lo2, hi2) == w2
        * boosted by {
        assert(levels[k].len() == bins);
        assert forall|b: int| lo2 <= b < hi2 implies #[trigger] levels[k][b] == boosted by {}
        lemma_band_sum_flat(levels[k], lo2, hi2, boosted);
    }
    assert forall|k: int| 0 <= k < count implies band_sum(#[trigger] levels[k], lo1, hi1) == w1
        * level by {
        assert(levels[k].len() == bins);
        assert forall|b: int| lo1 <= b < hi1 implies #[trigger] levels[k][b] == level by {}
        lemma_band_sum_flat(levels[k], lo1, hi1, level);
    }
    assert forall|k: int| 0 <= k < count implies band_sum(#[trigger] levels[k], 0, bins)
        == whole by {
        let frame = levels[k];
        assert(frame.len() == bins);
        assert forall|b: int| 0 <= b < lo2 implies #[trigger] frame[b] == level by {}
        assert forall|b: int| lo2 <= b < hi2 implies #[trigger] frame[b] == boosted by {}
        assert forall|b: int| hi2 <= b < bins implies #[trigger] frame[b] == level by {}
        lemma_band_sum_flat(frame, 0, lo2, level);
        lemma_band_sum_flat(frame, lo2, hi2, boosted);
        lemma_band_sum_flat(frame, hi2, bins, level);
        lemma_band_sum_split(frame, 0, lo2, bins);
        lemma_band_sum_split(frame, lo2, hi2, bins);
        assert((lo2 - 0) * level + w2 * boosted + (bins - hi2) * level == bins * level + w2
            * boost) by (nonlinear_arith)
            requires
                w2 == hi2 - lo2,
                boost == boosted - level,
        ;
    }
    lemma_band_total_uniform(levels, lo2, hi2, w2 * boosted);
    lemma_band_total_uniform(levels, lo1, hi1, w1 * level);
    lemma_band_total_uniform(levels, 0, bins, whole);
    let num1 = strength_num(levels, first);
    let den1 = strength_den(levels, first);
    let num2 = strength_num(levels, second);
    let den2 = strength_den(levels, second);
    assert(boost > 0 && bins - w2 > 0) by (nonlinear_arith)
        requires
            boost * (bins - w2) > 5_000 * bins,
            bins >= 3,
            bins - w2 >= 0,
    ;
    let share = count * w1;
    let lift = w2 * boost;
    assert(lift > 0) by (nonlinear_arith)
        requires
            lift == w2 * boost,
            w2 > 0,
            boost > 0,
    ;
    assert(share > 0) by (nonlinear_arith)
        requires
            share == count * w1,
            count > 0,
            w1 > 0,
    ;
    assert((count * (w1 * level)) * bins == share * (bins * level)) by (nonlinear_arith)
        requires
            share == count * w1,
    ;
    assert((count * whole) * w1 == share * whole) by (nonlinear_arith)
        requires
            share == count * w1,
    ;
    assert(share * whole == share * (bins * level) + share * lift) by (nonlinear_arith)
        requires
            whole == bins * level + lift,
    ;
    assert(share * lift > 0) by (nonlinear_arith)
        requires
            share > 0,
            lift > 0,
    ;
    assert(num1 < 0);
    assert(den1 >= 0) by (nonlinear_arith)
        requires
            den1 == w1 * (count * bins),
            count > 0,
            w1 > 0,
            bins > 0,
    ;
    assert(!hum_present(levels, GRID_FREQ_FIRST as nat, sample_rate, max_freq));
    let scale = count * w2;
    assert(scale > 0) by (nonlinear_arith)
        requires
            scale == count * w2,
            count > 0,
            w2 > 0,
    ;
    let gain = boost * (bins - w2);
    assert((count * (w2 * boosted)) * bins == scale * (boosted * bins)) by (nonlinear_arith)
        requires
            scale == count * w2,
    ;
    assert((count * whole) * w2 == scale * whole) by (nonlinear_arith)
        requires
            scale == count * w2,
    ;
    assert(boosted * bins - whole == gain) by (nonlinear_arith)
        requires
            whole == bins * level + w2 * boost,
            boost == boosted - level,
            gain == boost * (bins - w2),
    ;
    assert(scale * (boosted * bins) - scale * whole == scale * gain) by (nonlinear_arith)
        requires
            boosted * bins - whole == gain,
    ;
    assert(num2 == scale * gain);
    assert(den2 == scale * bins) by (nonlinear_arith)
        requires
            den2 == w2 * (count * bins),
            scale == count * w2,
    ;
    assert(num2 > 5_000 * den2) by (nonlinear_arith)
        requires
            num2 == scale * gain,
            den2 == scale * bins,
            scale > 0,
            gain > 5_000 * bins,
    ;
    vstd::arithmetic::div_mod::lemma_div_multiples_vanish_quotient(scale, gain, bins);
    assert(hum_present(levels, GRID_FREQ_SECOND as nat, sample_rate, max_freq));
}

/// Where hum is present at the first grid frequency, that frequency is
/// reported, whether or not hum is present at the second.
pub proof fn lemma_first_grid_frequency_wins(
    levels: Seq<Seq<i32>>,
    sample_rate: nat,
    max_freq: nat,
)
    requires
        hum_present(levels, GRID_FREQ_FIRST as nat, sample_rate, max_freq),
    ensures
        enf_grid(levels, sample_rate, max_freq) == GRID_FREQ_FIRST,
        enf_strength(levels, sample_rate, max_freq) == hum_strength(
            levels,
            GRID_FREQ_FIRST as nat,
            max_freq,
        ),
{
}

} // verus!
