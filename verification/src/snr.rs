use vstd::prelude::*;
use vstd::arithmetic::div_mod::lemma_div_by_multiple;
use vstd::arithmetic::div_mod::lemma_div_plus_one;
use crate::quality::PowerRatio;
use crate::quality::lemma_quality_bounds;
use crate::quality::lemma_sum_squares_zero;
use crate::quality::sample_magnitude;
use crate::quality::sum_squares;
use crate::sort::ascending;
use crate::sort::lemma_sort_ascending;
use crate::sort::sort_ascending;
use crate::units::NOISE_POWER_FLOOR;
use crate::units::round_div;

verus! {

/// The power of every chunk of a recording, each as a numerator over the
/// common denominator `scale`: the mean square of chunk `k` is exactly
/// `scaled[k] / scale`.
#[derive(Clone, Debug)]
pub struct ChunkPowers {
    pub scaled: Vec<u128>,
    pub scale: u64,
}

/// Length of a power chunk: 20 ms of samples, to the nearest sample.
pub open spec fn snr_frame_size(sample_rate: nat) -> nat {
    round_div(sample_rate, 50)
}

/// Number of chunks of `frame_size` samples that cover `len` samples, the
/// last of which may be shorter. No chunks where `frame_size` is zero.
pub open spec fn chunk_count(len: nat, frame_size: nat) -> nat {
    if frame_size == 0 {
        0
    } else {
        (len + frame_size - 1) as nat / frame_size
    }
}

/// Number of samples in chunk `k`.
pub open spec fn chunk_len(len: nat, frame_size: nat, k: int) -> nat
    recommends
        0 <= k < chunk_count(len, frame_size),
{
    if k * frame_size + frame_size < len {
        frame_size
    } else {
        (len - k * frame_size) as nat
    }
}

/// The samples of chunk `k`.
pub open spec fn chunk(samples: Seq<i32>, frame_size: nat, k: int) -> Seq<i32>
    recommends
        0 <= k < chunk_count(samples.len(), frame_size),
{
    samples.subrange(
        k * frame_size,
        k * frame_size + chunk_len(samples.len(), frame_size, k),
    )
}

/// Number of samples in the last chunk.
pub open spec fn last_chunk_len(len: nat, frame_size: nat) -> nat
    recommends
        chunk_count(len, frame_size) > 0,
{
    (len - (chunk_count(len, frame_size) - 1) * frame_size) as nat
}

/// The common denominator of the chunk powers: the length of a full chunk
/// times the length of the last one, so that every chunk length divides it.
pub open spec fn power_scale(len: nat, frame_size: nat) -> nat {
    if chunk_count(len, frame_size) == 0 {
        1
    } else {
        frame_size * last_chunk_len(len, frame_size)
    }
}

/// The scale over the length of chunk `k`: what its sum of squares is
/// multiplied by.
pub open spec fn multiplier(len: nat, frame_size: nat, k: int) -> nat {
    if k + 1 < chunk_count(len, frame_size) {
        last_chunk_len(len, frame_size)
    } else {
        frame_size
    }
}

/// The power of chunk `k` times the scale: the mean of its squared samples,
/// with nothing rounded away.
pub open spec fn scaled_power(samples: Seq<i32>, frame_size: nat, k: int) -> nat
    recommends
        0 <= k < chunk_count(samples.len(), frame_size),
{
    sum_squares(chunk(samples, frame_size, k)) * power_scale(samples.len(), frame_size)
        / chunk_len(samples.len(), frame_size, k)
}

/// The scaled power of every chunk, in the order of the chunks.
pub open spec fn scaled_powers(samples: Seq<i32>, frame_size: nat) -> Seq<u128> {
    Seq::new(
        chunk_count(samples.len(), frame_size),
        |k: int| scaled_power(samples, frame_size, k) as u128,
    )
}

/// Noise power times the scale: the chunk power at one twentieth of the
/// sorted list, and not less than the floor.
pub open spec fn noise_power(powers: Seq<u128>, scale: nat) -> nat
    recommends
        powers.len() > 0,
{
    let low = powers.sort_by(ascending())[(powers.len() / 20) as int];
    if low < NOISE_POWER_FLOOR * scale {
        (NOISE_POWER_FLOOR * scale) as nat
    } else {
        low as nat
    }
}

/// Signal power times the scale: the chunk power at nine tenths of the
/// sorted list.
pub open spec fn signal_power(powers: Seq<u128>) -> nat
    recommends
        powers.len() > 0,
{
    powers.sort_by(ascending())[(powers.len() * 9 / 10) as int] as nat
}

/// Chunk `k` starts inside the samples exactly when `k` is below the chunk count.
pub proof fn lemma_chunk_starts_inside(len: nat, frame_size: nat, k: nat)
    requires
        frame_size > 0,
    ensures
        k * frame_size < len <==> k < chunk_count(len, frame_size),
{
    let f = frame_size as int;
    let top = len + f - 1;
    let q = top / f;
    vstd::arithmetic::div_mod::lemma_fundamental_div_mod(top, f);
    vstd::arithmetic::div_mod::lemma_mod_bound(top, f);
    assert(f * q == q * f) by (nonlinear_arith);
    if (k as int) < q {
        assert(k * f <= (q - 1) * f) by (nonlinear_arith)
            requires
                k <= q - 1,
                f > 0,
        ;
        assert((q - 1) * f == q * f - f) by (nonlinear_arith);
    } else {
        assert(k * f >= q * f) by (nonlinear_arith)
            requires
                k >= q,
                f > 0,
        ;
    }
}

/// Every chunk but the last is full; the last holds what is left, at least
/// one sample and at most a full chunk.
pub proof fn lemma_chunk_shape(len: nat, frame_size: nat, k: int)
    requires
        frame_size > 0,
        0 <= k < chunk_count(len, frame_size),
    ensures
        0 <= k * frame_size < len,
        1 <= last_chunk_len(len, frame_size) <= frame_size,
        k + 1 < chunk_count(len, frame_size) ==> chunk_len(len, frame_size, k) == frame_size,
        k + 1 == chunk_count(len, frame_size) ==> chunk_len(len, frame_size, k) == last_chunk_len(
            len,
            frame_size,
        ),
        k * frame_size + chunk_len(len, frame_size, k) <= len,
{
    let count = chunk_count(len, frame_size) as int;
    let f = frame_size as int;
    lemma_chunk_starts_inside(len, frame_size, k as nat);
    lemma_chunk_starts_inside(len, frame_size, (k + 1) as nat);
    lemma_chunk_starts_inside(len, frame_size, (count - 1) as nat);
    lemma_chunk_starts_inside(len, frame_size, count as nat);
    assert((k + 1) * f == k * f + f) by (nonlinear_arith);
    assert((count - 1) * f + f == count * f) by (nonlinear_arith);
    assert(k * f >= 0) by (nonlinear_arith)
        requires
            k >= 0,
            f > 0,
    ;
}

/// The scale is positive, so that a scaled power stands for a power.
pub proof fn lemma_power_scale_positive(len: nat, frame_size: nat)
    ensures
        power_scale(len, frame_size) > 0,
{
    let count = chunk_count(len, frame_size);
    if count > 0 {
        lemma_chunk_shape(len, frame_size, count - 1);
        let l = last_chunk_len(len, frame_size);
        assert(frame_size * l > 0) by (nonlinear_arith)
            requires
                frame_size > 0,
                l > 0,
        ;
    }
}

/// The scaled power of a chunk is its mean square times the scale, exactly:
/// the division leaves no remainder.
pub proof fn lemma_scaled_power_exact(samples: Seq<i32>, frame_size: nat, k: int)
    requires
        frame_size > 0,
        0 <= k < chunk_count(samples.len(), frame_size),
    ensures
        scaled_power(samples, frame_size, k) * chunk_len(samples.len(), frame_size, k)
            == sum_squares(chunk(samples, frame_size, k)) * power_scale(
            samples.len(),
            frame_size,
        ),
        scaled_power(samples, frame_size, k) == sum_squares(chunk(samples, frame_size, k))
            * multiplier(samples.len(), frame_size, k),
{
    let len = samples.len();
    lemma_chunk_shape(len, frame_size, k);
    let sum = sum_squares(chunk(samples, frame_size, k)) as int;
    let f = frame_size as int;
    let l = last_chunk_len(len, frame_size) as int;
    if k + 1 < chunk_count(len, frame_size) {
        assert(sum * (f * l) == (sum * l) * f) by (nonlinear_arith);
        lemma_div_by_multiple(sum * l, f);
        assert(sum * l >= 0) by (nonlinear_arith)
            requires
                sum >= 0,
                l >= 0,
        ;
    } else {
        assert(sum * (f * l) == (sum * f) * l) by (nonlinear_arith);
        lemma_div_by_multiple(sum * f, l);
        assert(sum * f >= 0) by (nonlinear_arith)
            requires
                sum >= 0,
                f >= 0,
        ;
    }
}

/// Sum of the squares of `samples[lo..hi]`.
fn sum_squares_range(samples: &Vec<i32>, lo: usize, hi: usize) -> (total: u128)
    requires
        lo <= hi <= samples@.len(),
    ensures
        total == sum_squares(samples@.subrange(lo as int, hi as int)),
        total <= (hi - lo) * 0x4000_0000_0000_0000,
{
    let mut total: u128 = 0;
    let mut i: usize = lo;
    while i < hi
        invariant
            lo <= i <= hi <= samples@.len(),
            total == sum_squares(samples@.subrange(lo as int, i as int)),
        decreases hi - i,
    {
        let m: u32 = sample_magnitude(samples[i]);
        proof {
            let next = samples@.subrange(lo as int, i + 1);
            assert(next.drop_last() =~= samples@.subrange(lo as int, i as int));
            assert(next.last() == samples@[i as int]);
            lemma_quality_bounds(next);
            assert(next.len() * 0x4000_0000_0000_0000 <= 0xffff_ffff_ffff_ffff
                * 0x4000_0000_0000_0000) by (nonlinear_arith)
                requires
                    next.len() <= 0xffff_ffff_ffff_ffff,
            ;
            assert(m * m <= 0x4000_0000_0000_0000) by (nonlinear_arith)
                requires
                    m <= 0x8000_0000,
            ;
        }
        total = total + (m as u128) * (m as u128);
        i = i + 1;
    }
    proof {
        lemma_quality_bounds(samples@.subrange(lo as int, hi as int));
    }
    total
}

/// Length of a power chunk at `sample_rate`.
pub fn frame_size_for(sample_rate: u32) -> (frame_size: u32)
    ensures
        frame_size == snr_frame_size(sample_rate as nat),
{
    ((2 * (sample_rate as u64) + 50) / 100) as u32
}

/// The power of every chunk of `frame_size` samples, in order, over their
/// common denominator.
pub fn compute_chunk_powers(samples: &Vec<i32>, frame_size: u32) -> (powers: ChunkPowers)
    ensures
        powers.scaled@ == scaled_powers(samples@, frame_size as nat),
        powers.scale == power_scale(samples@.len(), frame_size as nat),
{
    let mut scaled: Vec<u128> = Vec::new();
    let n: usize = samples.len();
    if frame_size == 0 || n == 0 {
        proof {
            if frame_size > 0 {
                assert(0 * frame_size == 0) by (nonlinear_arith);
                lemma_chunk_starts_inside(0, frame_size as nat, 0);
            }
        }
        assert(scaled@ =~= scaled_powers(samples@, frame_size as nat));
        return ChunkPowers { scaled, scale: 1 };
    }
    let size: usize = frame_size as usize;
    let count: usize = (n - 1) / size + 1;
    proof {
        lemma_div_plus_one(n - 1, size as int);
        assert(count == chunk_count(n as nat, frame_size as nat));
        lemma_chunk_shape(n as nat, frame_size as nat, count - 1);
    }
    let last: usize = n - (count - 1) * size;
    assert(size * last <= 0xffff_ffff * 0xffff_ffff) by (nonlinear_arith)
        requires
            0 <= last <= size <= 0xffff_ffff,
    ;
    let scale: u64 = (size as u64) * (last as u64);
    let mut k: usize = 0;
    while k < count
        invariant
            n == samples@.len(),
            size == frame_size,
            0 < size <= 0xffff_ffff,
            count == chunk_count(n as nat, frame_size as nat),
            last == last_chunk_len(n as nat, frame_size as nat),
            1 <= last <= size,
            k <= count,
            scaled@.len() == k,
            forall|j: int|
                0 <= j < k ==> #[trigger] scaled@[j] == scaled_power(samples@, frame_size as nat, j),
        decreases count - k,
    {
        proof {
            lemma_chunk_shape(n as nat, frame_size as nat, k as int);
            lemma_scaled_power_exact(samples@, frame_size as nat, k as int);
        }
        let lo: usize = k * size;
        let hi: usize = if k + 1 < count {
            lo + size
        } else {
            n
        };
        let by: usize = if k + 1 < count {
            last
        } else {
            size
        };
        let total: u128 = sum_squares_range(samples, lo, hi);
        proof {
            assert(chunk(samples@, frame_size as nat, k as int) =~= samples@.subrange(
                lo as int,
                hi as int,
            ));
            assert(total * by <= 0xffff_ffff * 0x4000_0000_0000_0000 * 0xffff_ffff)
                by (nonlinear_arith)
                requires
                    0 <= total <= (hi - lo) * 0x4000_0000_0000_0000,
                    0 <= hi - lo <= 0xffff_ffff,
                    0 <= by <= 0xffff_ffff,
            ;
        }
        scaled.push(total * (by as u128));
        k = k + 1;
    }
    assert(scaled@ =~= scaled_powers(samples@, frame_size as nat));
    ChunkPowers { scaled, scale }
}

/// Signal over noise from the scaled chunk powers; `None`, read as 0 dB,
/// where there is no chunk or the signal has no power.
pub fn snr_from_powers(powers: &Vec<u128>, scale: u64) -> (snr: Option<PowerRatio>)
    ensures
        snr.is_some() <==> powers@.len() > 0 && signal_power(powers@) > 0,
        snr matches Some(ratio) ==> ratio.num == signal_power(powers@) && ratio.den == noise_power(
            powers@,
            scale as nat,
        ),
{
    let n: usize = powers.len();
    if n == 0 {
        return None;
    }
    let sorted = sort_ascending(powers);
    proof {
        lemma_sort_ascending(powers@);
    }
    let at: usize = ((n as u128) * 9 / 10) as usize;
    let signal: u128 = sorted[at];
    if signal == 0 {
        return None;
    }
    let low: u128 = sorted[n / 20];
    let floor: u128 = (NOISE_POWER_FLOOR as u128) * (scale as u128);
    let noise: u128 = if low < floor {
        floor
    } else {
        low
    };
    Some(PowerRatio { num: signal, den: noise })
}

/// Signal-to-noise ratio of the samples: the power of the loud chunks over
/// that of the quiet ones. `None`, read as 0 dB, where the recording has no
/// chunk or its loud chunks have no power.
pub fn estimate_snr(samples: &Vec<i32>, sample_rate: u32) -> (snr: Option<PowerRatio>)
    ensures
        snr.is_some() <==> chunk_count(samples@.len(), snr_frame_size(sample_rate as nat)) > 0
            && signal_power(scaled_powers(samples@, snr_frame_size(sample_rate as nat))) > 0,
        snr matches Some(ratio) ==> ratio.num == signal_power(
            scaled_powers(samples@, snr_frame_size(sample_rate as nat)),
        ) && ratio.den == noise_power(
            scaled_powers(samples@, snr_frame_size(sample_rate as nat)),
            power_scale(samples@.len(), snr_frame_size(sample_rate as nat)),
        ),
{
    let frame_size: u32 = frame_size_for(sample_rate);
    let powers = compute_chunk_powers(samples, frame_size);
    snr_from_powers(&powers.scaled, powers.scale)
}

/// The noise power is at least the floor and, where there is one chunk or
/// more, so positive that the ratio over it is defined.
pub proof fn lemma_noise_power_floor(powers: Seq<u128>, scale: nat)
    requires
        scale > 0,
    ensures
        noise_power(powers, scale) >= NOISE_POWER_FLOOR * scale > 0,
{
}

/// Where the signal power reaches the floor, it is at least the noise
/// power: the ratio is one or more, and its level is not negative.
pub proof fn lemma_snr_not_negative(powers: Seq<u128>, scale: nat)
    requires
        powers.len() > 0,
        signal_power(powers) >= NOISE_POWER_FLOOR * scale,
    ensures
        signal_power(powers) >= noise_power(powers, scale),
{
    lemma_sort_ascending(powers);
    let sorted = powers.sort_by(ascending());
    let low = (powers.len() / 20) as int;
    let high = (powers.len() * 9 / 10) as int;
    if low < high {
        assert(sorted[low] <= sorted[high]);
    }
}

/// In a silent recording every chunk has no power, so the signal power is
/// zero.
pub proof fn lemma_silence_snr(samples: Seq<i32>, frame_size: nat)
    requires
        forall|i: int| 0 <= i < samples.len() ==> #[trigger] samples[i] == 0,
        chunk_count(samples.len(), frame_size) > 0,
    ensures
        signal_power(scaled_powers(samples, frame_size)) == 0,
{
    let powers = scaled_powers(samples, frame_size);
    let n = powers.len();
    assert forall|k: int| 0 <= k < n implies #[trigger] powers[k] == 0 by {
        let c = chunk(samples, frame_size, k);
        lemma_chunk_shape(samples.len(), frame_size, k);
        assert forall|i: int| 0 <= i < c.len() implies #[trigger] c[i] == 0 by {
            assert(c[i] == samples[k * frame_size + i]);
        }
        lemma_sum_squares_zero(c);
        lemma_scaled_power_exact(samples, frame_size, k);
        assert(0 * multiplier(samples.len(), frame_size, k) == 0) by (nonlinear_arith);
    }
    lemma_sort_ascending(powers);
    let sorted = powers.sort_by(ascending());
    assert forall|i: int| 0 <= i < n implies #[trigger] sorted[i] == 0 by {
        assert(powers.contains(sorted[i]));
    }
}

} // verus!
