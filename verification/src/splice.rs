use vstd::prelude::*;
use crate::units::SPLICE_FACTOR;
use crate::units::SPLICE_FLOOR;
use crate::units::round_div;

verus! {

/// Half-width of the window around a jump: 10 ms of samples, to the nearest
/// sample.
pub open spec fn splice_window(sample_rate: nat) -> nat {
    round_div(sample_rate, 100)
}

/// Magnitude of the step from sample `i` to sample `i + 1`.
pub open spec fn jump(samples: Seq<i32>, i: int) -> nat
    recommends
        0 <= i,
        i + 1 < samples.len(),
{
    let d = samples[i + 1] - samples[i];
    if d < 0 {
        (-d) as nat
    } else {
        d as nat
    }
}

/// The steps between all neighbouring samples.
pub open spec fn jumps(samples: Seq<i32>) -> Seq<u32> {
    Seq::new(
        if samples.len() == 0 {
            0nat
        } else {
            (samples.len() - 1) as nat
        },
        |i: int| jump(samples, i) as u32,
    )
}

/// Sum of `jumps[lo..hi]`.
pub open spec fn jump_sum(jumps: Seq<u32>, lo: int, hi: int) -> nat
    recommends
        0 <= lo <= hi <= jumps.len(),
    decreases hi - lo,
{
    if hi <= lo {
        0
    } else {
        jump_sum(jumps, lo, hi - 1) + jumps[hi - 1] as nat
    }
}

/// The jump at `i` stands out: it exceeds the factor times the mean of the
/// `2 * window` jumps around it, and it exceeds the floor.
pub open spec fn is_splice(jumps: Seq<u32>, window: nat, i: int) -> bool
    recommends
        window <= i,
        i + window < jumps.len(),
{
    &&& jumps[i] * (2 * window) > SPLICE_FACTOR * jump_sum(jumps, i - window, i + window)
    &&& jumps[i] > SPLICE_FLOOR
}

/// Number of positions from `i` to the end.
pub open spec fn remaining(jumps: Seq<u32>, i: int) -> nat {
    if i < jumps.len() {
        (jumps.len() - i) as nat
    } else {
        0
    }
}

/// The splices found from position `i` on. After a splice the scan skips
/// `2 * window` positions; otherwise it moves on by one.
pub open spec fn scan_from(jumps: Seq<u32>, window: nat, i: int) -> Seq<int>
    recommends
        window <= i,
    decreases remaining(jumps, i),
{
    if i + window >= jumps.len() {
        Seq::empty()
    } else if window > 0 && is_splice(jumps, window, i) {
        seq![i] + scan_from(jumps, window, i + 2 * window)
    } else {
        scan_from(jumps, window, i + 1)
    }
}

/// The positions of the suspected splices of a recording, in scan order.
pub open spec fn splice_offsets(samples: Seq<i32>, sample_rate: nat) -> Seq<int> {
    scan_from(jumps(samples), splice_window(sample_rate), splice_window(sample_rate) as int)
}

/// Offsets as mathematical integers.
pub open spec fn offsets_view(offsets: Seq<usize>) -> Seq<int> {
    Seq::new(offsets.len(), |k: int| offsets[k] as int)
}

/// With no window there is no mean to exceed, so nothing is a splice: that
/// the scan asks for a window changes nothing it finds.
pub proof fn lemma_no_window_no_splice(jumps: Seq<u32>, i: int)
    ensures
        !is_splice(jumps, 0, i),
{
    assert(jump_sum(jumps, i, i) == 0);
    assert(jumps[i] * (2 * 0nat) == 0) by (nonlinear_arith);
}

/// A sum of jumps is at most as many times the largest `u32`.
pub proof fn lemma_jump_sum_bound(jumps: Seq<u32>, lo: int, hi: int)
    requires
        0 <= lo <= hi <= jumps.len(),
    ensures
        jump_sum(jumps, lo, hi) <= (hi - lo) * 0xffff_ffff,
    decreases hi - lo,
{
    if hi > lo {
        lemma_jump_sum_bound(jumps, lo, hi - 1);
    }
}

/// A sum of jumps splits at any point between its ends.
pub proof fn lemma_jump_sum_split(jumps: Seq<u32>, lo: int, mid: int, hi: int)
    requires
        lo <= mid <= hi,
    ensures
        jump_sum(jumps, lo, hi) == jump_sum(jumps, lo, mid) + jump_sum(jumps, mid, hi),
    decreases hi - mid,
{
    if hi > mid {
        lemma_jump_sum_split(jumps, lo, mid, hi - 1);
    }
}

/// Every reported splice stands out where it is and lies a window away from
/// both ends.
pub open spec fn all_splices(jumps: Seq<u32>, window: nat, from: int, found: Seq<int>) -> bool {
    forall|k: int|
        0 <= k < found.len() ==> {
            &&& from <= #[trigger] found[k]
            &&& found[k] + window < jumps.len()
            &&& is_splice(jumps, window, found[k])
        }
}

/// Each reported splice is at least two windows behind the one before it.
pub open spec fn two_windows_apart(window: nat, found: Seq<int>) -> bool {
    forall|k: int, l: int|
        0 <= k < l < found.len() ==> #[trigger] found[k] + 2 * window <= #[trigger] found[l]
}

/// The scan reports splices in ascending order, none twice and none within
/// two windows of another, and only where the jump stands out.
pub proof fn lemma_scan_ascending(jumps: Seq<u32>, window: nat, i: int)
    requires
        window <= i,
    ensures
        all_splices(jumps, window, i, scan_from(jumps, window, i)),
        two_windows_apart(window, scan_from(jumps, window, i)),
    decreases remaining(jumps, i),
{
    let found = scan_from(jumps, window, i);
    if i + window >= jumps.len() {
    } else if window > 0 && is_splice(jumps, window, i) {
        let rest = scan_from(jumps, window, i + 2 * window);
        lemma_scan_ascending(jumps, window, i + 2 * window);
        assert(found =~= seq![i] + rest);
        assert forall|k: int| 0 <= k < found.len() implies {
            &&& i <= #[trigger] found[k]
            &&& found[k] + window < jumps.len()
            &&& is_splice(jumps, window, found[k])
        } by {
            if k > 0 {
                assert(found[k] == rest[k - 1]);
            }
        }
        assert forall|k: int, l: int| 0 <= k < l < found.len() implies #[trigger] found[k] + 2
            * window <= #[trigger] found[l] by {
            assert(found[l] == rest[l - 1]);
            if k > 0 {
                assert(found[k] == rest[k - 1]);
            }
        }
    } else {
        let rest = scan_from(jumps, window, i + 1);
        lemma_scan_ascending(jumps, window, i + 1);
        assert(found == rest);
        assert forall|k: int| 0 <= k < found.len() implies {
            &&& i <= #[trigger] found[k]
            &&& found[k] + window < jumps.len()
            &&& is_splice(jumps, window, found[k])
        } by {
            assert(i + 1 <= rest[k]);
        }
    }
}

/// Half-width of the splice window at `sample_rate`.
pub fn window_for(sample_rate: u32) -> (window: usize)
    ensures
        window == splice_window(sample_rate as nat),
{
    ((2 * (sample_rate as u64) + 100) / 200) as usize
}

/// The steps between all neighbouring samples.
pub fn compute_jumps(samples: &Vec<i32>) -> (steps: Vec<u32>)
    ensures
        steps@ == jumps(samples@),
{
    let mut steps: Vec<u32> = Vec::new();
    let n: usize = samples.len();
    if n == 0 {
        assert(steps@ =~= jumps(samples@));
        return steps;
    }
    let mut i: usize = 0;
    while i < n - 1
        invariant
            n == samples@.len(),
            n > 0,
            i <= n - 1,
            steps@.len() == i,
            forall|k: int| 0 <= k < i ==> #[trigger] steps@[k] == jump(samples@, k) as u32,
        decreases n - i,
    {
        let d: i64 = samples[i + 1] as i64 - samples[i] as i64;
        let step: u32 = if d < 0 {
            (-d) as u32
        } else {
            d as u32
        };
        steps.push(step);
        i = i + 1;
    }
    assert(steps@ =~= jumps(samples@));
    steps
}

/// Sum of `steps[lo..hi]`.
fn sum_jumps(steps: &Vec<u32>, lo: usize, hi: usize) -> (total: u128)
    requires
        lo <= hi <= steps@.len(),
    ensures
        total == jump_sum(steps@, lo as int, hi as int),
{
    let mut total: u128 = 0;
    let mut i: usize = lo;
    while i < hi
        invariant
            lo <= i <= hi <= steps@.len(),
            total == jump_sum(steps@, lo as int, i as int),
        decreases hi - i,
    {
        proof {
            lemma_jump_sum_bound(steps@, lo as int, i as int);
            assert((i - lo) * 0xffff_ffff <= 0xffff_ffff_ffff_ffff * 0xffff_ffff) by (nonlinear_arith)
                requires
                    0 <= i - lo <= 0xffff_ffff_ffff_ffff,
            ;
        }
        total = total + steps[i] as u128;
        i = i + 1;
    }
    total
}

/// Scans the steps for splices with the given half-window.
pub fn scan_jumps(steps: &Vec<u32>, window: usize) -> (offsets: Vec<usize>)
    ensures
        offsets_view(offsets@) == scan_from(steps@, window as nat, window as int),
{
    let n: usize = steps.len();
    let mut offsets: Vec<usize> = Vec::new();
    if window == 0 || n <= window {
        proof {
            if window == 0 {
                lemma_scan_without_window(steps@, 0);
            }
            assert(offsets_view(offsets@) =~= scan_from(steps@, window as nat, window as int));
        }
        return offsets;
    }
    let mut i: usize = window;
    let ghost mut pos: int = window as int;
    while n - i > window
        invariant
            n == steps@.len(),
            0 < window <= i <= n,
            window <= pos,
            i == (if pos < n {
                pos
            } else {
                n as int
            }),
            offsets_view(offsets@) + scan_from(steps@, window as nat, pos) == scan_from(
                steps@,
                window as nat,
                window as int,
            ),
        decreases n - i,
    {
        let total: u128 = sum_jumps(steps, i - window, i + window);
        let here: u32 = steps[i];
        proof {
            lemma_jump_sum_bound(steps@, i - window, i + window);
            assert(2 * window * 0xffff_ffff <= 0xffff_ffff_ffff_ffff * 0xffff_ffff) by (nonlinear_arith)
                requires
                    0 <= 2 * window <= 0xffff_ffff_ffff_ffff,
            ;
            assert(here * (2 * window) <= 0xffff_ffff * 0xffff_ffff_ffff_ffff) by (nonlinear_arith)
                requires
                    0 <= here <= 0xffff_ffff,
                    0 <= 2 * window <= 0xffff_ffff_ffff_ffff,
            ;
        }
        let weighed: u128 = (here as u128) * (2 * (window as u128));
        if weighed > (SPLICE_FACTOR as u128) * total && (here as u64) > SPLICE_FLOOR {
            let ghost before = offsets@;
            offsets.push(i);
            proof {
                assert(is_splice(steps@, window as nat, pos));
                assert(offsets_view(offsets@) =~= offsets_view(before) + seq![pos]);
                assert(offsets_view(offsets@) + scan_from(steps@, window as nat, pos + 2 * window)
                    =~= offsets_view(before) + (seq![pos] + scan_from(
                    steps@,
                    window as nat,
                    pos + 2 * window,
                )));
                pos = pos + 2 * window;
            }
            i = i + window;
            if n - i > window {
                i = i + window;
            } else {
                i = n;
            }
        } else {
            proof {
                assert(!is_splice(steps@, window as nat, pos));
                pos = pos + 1;
            }
            i = i + 1;
        }
    }
    proof {
        assert(scan_from(steps@, window as nat, pos) =~= Seq::<int>::empty());
        assert(offsets_view(offsets@) + Seq::<int>::empty() =~= offsets_view(offsets@));
    }
    offsets
}

/// With no window the scan finds nothing.
pub proof fn lemma_scan_without_window(jumps: Seq<u32>, i: int)
    ensures
        scan_from(jumps, 0, i) == Seq::<int>::empty(),
    decreases jumps.len() - i,
{
    if i < jumps.len() {
        lemma_scan_without_window(jumps, i + 1);
    }
}

/// The positions of the suspected splices of a recording. A splice at
/// position `p` happened `p / sample_rate` seconds into the recording.
pub fn detect_splices(samples: &Vec<i32>, sample_rate: u32) -> (offsets: Vec<usize>)
    ensures
        offsets_view(offsets@) == splice_offsets(samples@, sample_rate as nat),
{
    let steps = compute_jumps(samples);
    let window: usize = window_for(sample_rate);
    scan_jumps(&steps, window)
}

/// The recording is at `level` everywhere but at position `at`, where it is
/// at `outlier`.
pub open spec fn constant_but_one(samples: Seq<i32>, level: i32, outlier: i32, at: int) -> bool {
    &&& 0 <= at < samples.len()
    &&& samples[at] == outlier
    &&& forall|i: int| 0 <= i < samples.len() && i != at ==> #[trigger] samples[i] == level
}

/// Magnitude of the difference of two amplitudes.
pub open spec fn distance(a: i32, b: i32) -> nat {
    if a < b {
        (b - a) as nat
    } else {
        (a - b) as nat
    }
}

/// A sum of jumps that are all zero is zero.
pub proof fn lemma_jump_sum_zero(jumps: Seq<u32>, lo: int, hi: int)
    requires
        forall|k: int| lo <= k < hi ==> #[trigger] jumps[k] == 0,
    ensures
        jump_sum(jumps, lo, hi) == 0,
    decreases hi - lo,
{
    if hi > lo {
        lemma_jump_sum_zero(jumps, lo, hi - 1);
    }
}

/// Where no jump from `i` on exceeds the floor, the scan finds nothing.
pub proof fn lemma_scan_quiet_tail(jumps: Seq<u32>, window: nat, i: int)
    requires
        forall|k: int| i <= k < jumps.len() ==> #[trigger] jumps[k] <= SPLICE_FLOOR,
    ensures
        scan_from(jumps, window, i) == Seq::<int>::empty(),
    decreases remaining(jumps, i),
{
    if i + window < jumps.len() {
        if i >= 0 {
            assert(jumps[i] <= SPLICE_FLOOR);
        }
        lemma_scan_quiet_tail(jumps, window, i + 1);
    }
}

/// A single sample that leaves an otherwise constant recording by more than
/// the floor is reported once, at the step that leads to it, wherever the
/// window is longer than eight samples and fits on both sides.
pub proof fn lemma_single_outlier_one_splice(
    samples: Seq<i32>,
    level: i32,
    outlier: i32,
    at: int,
    sample_rate: nat,
)
    requires
        constant_but_one(samples, level, outlier, at),
        distance(level, outlier) > SPLICE_FLOOR,
        splice_window(sample_rate) > 8,
        splice_window(sample_rate) < at,
        at + splice_window(sample_rate) < samples.len(),
    ensures
        splice_offsets(samples, sample_rate) == seq![at - 1],
{
    let steps = jumps(samples);
    let window = splice_window(sample_rate);
    let d = distance(level, outlier);
    assert(samples[at - 1] == level);
    assert(samples[at + 1] == level);
    assert(steps[at - 1] == d);
    assert(steps[at] == d);
    assert forall|k: int| 0 <= k < steps.len() && k != at - 1 && k != at implies #[trigger] steps[k]
        == 0 by {
        assert(samples[k] == level);
        assert(samples[k + 1] == level);
    }
    let lo = at - 1 - window;
    let hi = at - 1 + window;
    assert(jump_sum(steps, lo, hi) == 2 * d) by {
        lemma_jump_sum_split(steps, lo, at - 1, hi);
        lemma_jump_sum_split(steps, at - 1, at + 1, hi);
        lemma_jump_sum_zero(steps, lo, at - 1);
        lemma_jump_sum_zero(steps, at + 1, hi);
        assert(jump_sum(steps, at - 1, at + 1) == jump_sum(steps, at - 1, at) + steps[at]);
        assert(jump_sum(steps, at - 1, at) == jump_sum(steps, at - 1, at - 1) + steps[at - 1]);
    }
    assert(is_splice(steps, window, at - 1)) by {
        assert(d * (2 * window) > 8 * (2 * d)) by (nonlinear_arith)
            requires
                d > 0,
                window > 8,
        ;
    }
    lemma_scan_quiet_tail(steps, window, at - 1 + 2 * window);
    assert(scan_from(steps, window, at - 1) =~= seq![at - 1]);
    lemma_scan_quiet_head(steps, window, window as int, at - 1);
}

/// Where no jump in `i..until` exceeds the floor, the scan from `i` finds what
/// the scan from `until` finds.
pub proof fn lemma_scan_quiet_head(jumps: Seq<u32>, window: nat, i: int, until: int)
    requires
        0 <= i <= until,
        until + window < jumps.len(),
        forall|k: int| i <= k < until ==> #[trigger] jumps[k] <= SPLICE_FLOOR,
    ensures
        scan_from(jumps, window, i) == scan_from(jumps, window, until),
    decreases until - i,
{
    if i < until {
        assert(jumps[i] <= SPLICE_FLOOR);
        lemma_scan_quiet_head(jumps, window, i + 1, until);
    }
}

/// A silent recording has no splice.
pub proof fn lemma_silence_no_splice(samples: Seq<i32>, sample_rate: nat)
    requires
        forall|i: int| 0 <= i < samples.len() ==> #[trigger] samples[i] == 0,
    ensures
        splice_offsets(samples, sample_rate) == Seq::<int>::empty(),
{
    let steps = jumps(samples);
    assert forall|k: int| 0 <= k < steps.len() implies #[trigger] steps[k] <= SPLICE_FLOOR by {
        assert(samples[k] == 0);
        assert(samples[k + 1] == 0);
    }
    lemma_scan_quiet_tail(steps, splice_window(sample_rate), splice_window(sample_rate) as int);
}

} // verus!
