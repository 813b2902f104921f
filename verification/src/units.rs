use vstd::prelude::*;

verus! {

/// Amplitude of a full-scale sample: one million units.
pub const FULL_SCALE: i32 = 1_000_000;

/// A sample counts as clipped when its magnitude exceeds 99 % of full scale.
pub const CLIP_LEVEL: u32 = 990_000;

/// Clipping is reported when more than one sample in this many is clipped.
pub const CLIP_RATIO_DIVISOR: usize = 10_000;

/// Lower bound of the noise power, in squared amplitude units: 1e-10 of the
/// square of full scale.
pub const NOISE_POWER_FLOOR: u64 = 100;

/// A jump between neighbouring samples must exceed a tenth of full scale to
/// count as a splice.
pub const SPLICE_FLOOR: u64 = 100_000;

/// A jump must exceed this many times the local mean jump to count as a splice.
pub const SPLICE_FACTOR: u64 = 8;

/// Mains hum must stand more than 5 dB above the background, in thousandths
/// of a decibel.
pub const ENF_THRESHOLD: i64 = 5_000;

/// The mains frequency that is looked for first, in hertz.
pub const GRID_FREQ_FIRST: u32 = 50;

/// The mains frequency that is looked for where the first is not found.
pub const GRID_FREQ_SECOND: u32 = 60;

/// Transform length used when the caller names none.
pub const DEFAULT_FFT_SIZE: usize = 2048;

/// Distance between frame starts used when the caller names none.
pub const DEFAULT_HOP: usize = 512;

/// Quotient of `a` by `b`, rounded to the nearest integer, halves upwards.
pub open spec fn round_div(a: nat, b: nat) -> nat
    recommends
        b > 0,
{
    (2 * a + b) / (2 * b)
}

/// `round_div` is the integer nearest to the exact quotient.
pub proof fn lemma_round_div_nearest(a: nat, b: nat)
    requires
        b > 0,
    ensures
        2 * round_div(a, b) * b <= 2 * a + b,
        2 * a + b < 2 * (round_div(a, b) + 1) * b,
{
    let q = ((2 * a + b) / (2 * b)) as int;
    vstd::arithmetic::div_mod::lemma_fundamental_div_mod((2 * a + b) as int, (2 * b) as int);
    vstd::arithmetic::div_mod::lemma_mod_bound((2 * a + b) as int, (2 * b) as int);
    vstd::arithmetic::div_mod::lemma_div_pos_is_pos((2 * a + b) as int, (2 * b) as int);
    assert(2 * q * b == (2 * b) * q) by (nonlinear_arith);
    assert(2 * (q + 1) * b == (2 * b) * q + 2 * b) by (nonlinear_arith);
}

} // verus!
