use vstd::prelude::*;
use crate::units::CLIP_LEVEL;
use crate::units::CLIP_RATIO_DIVISOR;
use crate::units::FULL_SCALE;

verus! {

/// A ratio of two powers. The level it stands for is ten times the decimal
/// logarithm of `num / den`, in decibels.
#[derive(Clone, Copy, Debug, PartialEq, Eq, Structural)]
pub struct PowerRatio {
    pub num: u128,
    pub den: u128,
}

/// What the raw samples say about level and clipping.
#[derive(Clone, Copy, Debug, PartialEq, Eq, Structural)]
pub struct QualityMetrics {
    /// Square of peak over root mean square; `None`, read as 0 dB, where the
    /// root mean square is zero.
    pub dynamic_range: Option<PowerRatio>,
    pub has_clipping: bool,
    pub clipped_count: usize,
}

/// Absolute value of a sample.
pub open spec fn magnitude(s: i32) -> nat {
    if s < 0 {
        (-(s as int)) as nat
    } else {
        s as nat
    }
}

/// Largest magnitude among the samples; zero where there are none.
pub open spec fn peak(samples: Seq<i32>) -> nat
    decreases samples.len(),
{
    if samples.len() == 0 {
        0
    } else {
        let before = peak(samples.drop_last());
        let m = magnitude(samples.last());
        if m > before {
            m
        } else {
            before
        }
    }
}

/// Sum of the squared samples.
pub open spec fn sum_squares(samples: Seq<i32>) -> nat
    decreases samples.len(),
{
    if samples.len() == 0 {
        0
    } else {
        sum_squares(samples.drop_last()) + magnitude(samples.last()) * magnitude(samples.last())
    }
}

/// A sample is clipped when its magnitude exceeds the clip level.
pub open spec fn is_clipped(s: i32) -> bool {
    magnitude(s) > CLIP_LEVEL
}

/// Number of clipped samples.
pub open spec fn clipped_count(samples: Seq<i32>) -> nat
    decreases samples.len(),
{
    if samples.len() == 0 {
        0
    } else {
        clipped_count(samples.drop_last()) + if is_clipped(samples.last()) {
            1nat
        } else {
            0nat
        }
    }
}

/// Clipping is reported when the clipped samples are more than one in `divisor`.
pub open spec fn has_clipping(samples: Seq<i32>, divisor: nat) -> bool
    recommends
        divisor > 0,
{
    clipped_count(samples) > samples.len() / divisor
}

/// Number of samples equal to `value`.
pub open spec fn count_of(samples: Seq<i32>, value: i32) -> nat
    decreases samples.len(),
{
    if samples.len() == 0 {
        0
    } else {
        count_of(samples.drop_last(), value) + if samples.last() == value {
            1nat
        } else {
            0nat
        }
    }
}

/// The peak is the magnitude of some sample and no sample exceeds it.
pub proof fn lemma_peak_is_max(samples: Seq<i32>)
    ensures
        forall|i: int| 0 <= i < samples.len() ==> magnitude(#[trigger] samples[i]) <= peak(samples),
        samples.len() > 0 ==> exists|i: int|
            0 <= i < samples.len() && magnitude(#[trigger] samples[i]) == peak(samples),
        samples.len() == 0 ==> peak(samples) == 0,
        peak(samples) <= 0x8000_0000,
    decreases samples.len(),
{
    if samples.len() > 0 {
        let init = samples.drop_last();
        lemma_peak_is_max(init);
        assert forall|i: int| 0 <= i < samples.len() implies magnitude(#[trigger] samples[i])
            <= peak(samples) by {
            if i < init.len() {
                assert(samples[i] == init[i]);
            }
        }
        if magnitude(samples.last()) > peak(init) || init.len() == 0 {
            assert(magnitude(samples[samples.len() - 1]) == peak(samples));
        } else {
            let j = choose|j: int| 0 <= j < init.len() && magnitude(#[trigger] init[j]) == peak(init);
            assert(magnitude(samples[j]) == peak(samples));
        }
    }
}

/// Bounds that keep the sums within machine integers.
pub proof fn lemma_quality_bounds(samples: Seq<i32>)
    ensures
        sum_squares(samples) <= samples.len() * 0x4000_0000_0000_0000,
        clipped_count(samples) <= samples.len(),
    decreases samples.len(),
{
    if samples.len() > 0 {
        lemma_quality_bounds(samples.drop_last());
        let m = magnitude(samples.last());
        assert(m * m <= 0x4000_0000_0000_0000) by (nonlinear_arith)
            requires
                m <= 0x8000_0000,
        ;
    }
}

/// The sum of squares is zero exactly when every sample is zero.
pub proof fn lemma_sum_squares_zero(samples: Seq<i32>)
    ensures
        sum_squares(samples) == 0 <==> (forall|i: int|
            0 <= i < samples.len() ==> #[trigger] samples[i] == 0),
    decreases samples.len(),
{
    if samples.len() > 0 {
        let init = samples.drop_last();
        lemma_sum_squares_zero(init);
        let m = magnitude(samples.last());
        assert(m * m == 0 <==> m == 0) by (nonlinear_arith);
        if sum_squares(samples) == 0 {
            assert forall|i: int| 0 <= i < samples.len() implies #[trigger] samples[i] == 0 by {
                if i < init.len() {
                    assert(samples[i] == init[i]);
                }
            }
        } else {
            if forall|i: int| 0 <= i < samples.len() ==> #[trigger] samples[i] == 0 {
                assert(samples[samples.len() - 1] == 0);
                assert forall|i: int| 0 <= i < init.len() implies #[trigger] init[i] == 0 by {
                    assert(init[i] == samples[i]);
                }
            }
        }
    }
}

/// Where the samples have power, they have a peak.
pub proof fn lemma_peak_positive(samples: Seq<i32>)
    requires
        sum_squares(samples) > 0,
    ensures
        peak(samples) > 0,
        samples.len() > 0,
{
    lemma_sum_squares_zero(samples);
    lemma_peak_is_max(samples);
    let i = choose|i: int| 0 <= i < samples.len() && #[trigger] samples[i] != 0;
    assert(magnitude(samples[i]) <= peak(samples));
}

/// Absolute value of a sample.
pub fn sample_magnitude(s: i32) -> (m: u32)
    ensures
        m == magnitude(s),
{
    if s < 0 {
        (-(s as i64)) as u32
    } else {
        s as u32
    }
}

/// Peak, power and clipping over all samples. An empty input gives no
/// dynamic range, no clipping and a count of zero.
pub fn quality_metrics(samples: &Vec<i32>, clip_ratio_divisor: usize) -> (metrics: QualityMetrics)
    requires
        clip_ratio_divisor > 0,
    ensures
        metrics.clipped_count == clipped_count(samples@),
        metrics.has_clipping == has_clipping(samples@, clip_ratio_divisor as nat),
        metrics.dynamic_range.is_some() <==> sum_squares(samples@) > 0,
        metrics.dynamic_range matches Some(ratio) ==> ratio.num == peak(samples@) * peak(
            samples@,
        ) * samples@.len() && ratio.den == sum_squares(samples@),
{
    let n: usize = samples.len();
    let mut top: u32 = 0;
    let mut total: u128 = 0;
    let mut clipped: usize = 0;
    let mut i: usize = 0;
    while i < n
        invariant
            n == samples@.len(),
            i <= n,
            top == peak(samples@.take(i as int)),
            total == sum_squares(samples@.take(i as int)),
            clipped == clipped_count(samples@.take(i as int)),
        decreases n - i,
    {
        let m: u32 = sample_magnitude(samples[i]);
        proof {
            let next = samples@.take(i + 1);
            assert(next.drop_last() =~= samples@.take(i as int));
            assert(next.last() == samples@[i as int]);
            lemma_quality_bounds(next);
            assert(next.len() * 0x4000_0000_0000_0000 <= 0xffff_ffff_ffff_ffff
                * 0x4000_0000_0000_0000) by (nonlinear_arith)
                requires
                    next.len() <= 0xffff_ffff_ffff_ffff,
            ;
            assert(m * m <= 0x4000_0000_0000_0000) by (nonlinear_arith)
                requires
                    m <= 0x8000_0000,
            ;
        }
        if m > top {
            top = m;
        }
        total = total + (m as u128) * (m as u128);
        if m > CLIP_LEVEL {
            clipped = clipped + 1;
        }
        i = i + 1;
    }
    assert(samples@.take(n as int) =~= samples@);
    proof {
        lemma_peak_is_max(samples@);
        let p = peak(samples@);
        assert(p * p <= 0x4000_0000_0000_0000) by (nonlinear_arith)
            requires
                p <= 0x8000_0000,
        ;
        assert(p * p * n <= 0x4000_0000_0000_0000 * 0xffff_ffff_ffff_ffff) by (nonlinear_arith)
            requires
                p <= 0x8000_0000,
                n <= 0xffff_ffff_ffff_ffff,
        ;
    }
    let dynamic_range = if total > 0 {
        Some(PowerRatio { num: (top as u128) * (top as u128) * (n as u128), den: total })
    } else {
        None
    };
    QualityMetrics {
        dynamic_range,
        has_clipping: clipped > n / clip_ratio_divisor,
        clipped_count: clipped,
    }
}

/// A recording whose samples are all either silent or at full scale, with at
/// least two in ten thousand at full scale, is reported as clipped, and the
/// count is the number of full-scale samples.
pub proof fn lemma_full_scale_samples_are_counted(samples: Seq<i32>)
    requires
        samples.len() > 0,
        forall|i: int| 0 <= i < samples.len() ==> #[trigger] samples[i] == 0 || samples[i]
            == FULL_SCALE,
        count_of(samples, FULL_SCALE) * 10_000 >= 2 * samples.len(),
    ensures
        clipped_count(samples) == count_of(samples, FULL_SCALE),
        has_clipping(samples, CLIP_RATIO_DIVISOR as nat),
{
    lemma_clipped_is_full_scale(samples);
}

/// Where every sample is silent or at full scale, the clipped samples are
/// those at full scale.
pub proof fn lemma_clipped_is_full_scale(samples: Seq<i32>)
    requires
        forall|i: int| 0 <= i < samples.len() ==> #[trigger] samples[i] == 0 || samples[i]
            == FULL_SCALE,
    ensures
        clipped_count(samples) == count_of(samples, FULL_SCALE),
    decreases samples.len(),
{
    if samples.len() > 0 {
        let init = samples.drop_last();
        assert forall|i: int| 0 <= i < init.len() implies #[trigger] init[i] == 0 || init[i]
            == FULL_SCALE by {
            assert(init[i] == samples[i]);
        }
        lemma_clipped_is_full_scale(init);
        assert(samples[samples.len() - 1] == 0 || samples[samples.len() - 1] == FULL_SCALE);
    }
}

/// Silence has no peak, no power, no dynamic range and no clipping.
pub proof fn lemma_silence_quality(samples: Seq<i32>, divisor: nat)
    requires
        forall|i: int| 0 <= i < samples.len() ==> #[trigger] samples[i] == 0,
        divisor > 0,
    ensures
        peak(samples) == 0,
        sum_squares(samples) == 0,
        clipped_count(samples) == 0,
        !has_clipping(samples, divisor),
    decreases samples.len(),
{
    if samples.len() > 0 {
        let init = samples.drop_last();
        assert forall|i: int| 0 <= i < init.len() implies #[trigger] init[i] == 0 by {
            assert(init[i] == samples[i]);
        }
        lemma_silence_quality(init, divisor);
        assert(samples[samples.len() - 1] == 0);
    }
}

} // verus!
