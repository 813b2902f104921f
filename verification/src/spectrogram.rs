use vstd::prelude::*;
use crate::error::AudioError;

verus! {

/// Number of frames of `fft_size` samples, `hop` samples apart, that fit into
/// `len` samples.
pub open spec fn frame_count(len: nat, fft_size: nat, hop: nat) -> nat
    recommends
        hop > 0,
{
    if len < fft_size {
        0
    } else {
        ((len - fft_size) / (hop as int) + 1) as nat
    }
}

/// Frame `k` lies inside the samples exactly when `k` is below the frame count.
pub proof fn lemma_frame_fits(len: nat, fft_size: nat, hop: nat, k: nat)
    requires
        hop > 0,
    ensures
        k * hop + fft_size <= len <==> k < frame_count(len, fft_size, hop),
{
    if len >= fft_size {
        let room = (len - fft_size) as int;
        let h = hop as int;
        let q = room / h;
        vstd::arithmetic::div_mod::lemma_fundamental_div_mod(room, h);
        vstd::arithmetic::div_mod::lemma_mod_bound(room, h);
        if (k as int) <= q {
            assert(k * h <= q * h) by (nonlinear_arith)
                requires
                    k <= q,
                    h > 0,
            ;
            assert(h * q == q * h) by (nonlinear_arith);
        } else {
            assert(k * h >= (q + 1) * h) by (nonlinear_arith)
                requires
                    k >= q + 1,
                    h > 0,
            ;
            assert((q + 1) * h == h * q + h) by (nonlinear_arith);
        }
    } else {
        assert(k * hop >= 0) by (nonlinear_arith);
    }
}

/// The start offsets of all frames that fit into `len` samples, in order.
pub fn frame_starts(len: usize, fft_size: usize, hop: usize) -> (starts: Vec<usize>)
    requires
        hop > 0,
    ensures
        starts@.len() == frame_count(len as nat, fft_size as nat, hop as nat),
        forall|k: int| 0 <= k < starts@.len() ==> #[trigger] starts@[k] == k * hop,
{
    let mut starts: Vec<usize> = Vec::new();
    if len < fft_size {
        return starts;
    }
    let room: usize = len - fft_size;
    let mut start: usize = 0;
    proof {
        assert(0 * hop == 0) by (nonlinear_arith);
        lemma_frame_fits(len as nat, fft_size as nat, hop as nat, 0);
    }
    loop
        invariant_except_break
            start <= room,
            start == starts@.len() * hop,
            starts@.len() < frame_count(len as nat, fft_size as nat, hop as nat),
        invariant
            hop > 0,
            len >= fft_size,
            room == len - fft_size,
            forall|k: int| 0 <= k < starts@.len() ==> #[trigger] starts@[k] == k * hop,
        ensures
            starts@.len() == frame_count(len as nat, fft_size as nat, hop as nat),
        decreases room - start,
    {
        let ghost n = starts@.len();
        starts.push(start);
        proof {
            assert((n + 1) * hop == n * hop + hop) by (nonlinear_arith);
            lemma_frame_fits(len as nat, fft_size as nat, hop as nat, (n + 1) as nat);
        }
        if room - start < hop {
            break;
        }
        start = start + hop;
    }
    starts
}

/// Number of bins kept of each frame: those below `max_freq`, and never more
/// than a real transform of `fft_size` samples yields.
pub open spec fn max_bin_spec(max_freq: nat, sample_rate: nat, fft_size: nat) -> nat
    recommends
        sample_rate > 0,
{
    let below = (max_freq * fft_size) / sample_rate;
    let all = fft_size / 2 + 1;
    if below < all {
        below
    } else {
        all
    }
}

/// Number of bins kept of each frame.
pub fn max_bin(max_freq: u32, sample_rate: u32, fft_size: usize) -> (bins: usize)
    requires
        sample_rate > 0,
    ensures
        bins == max_bin_spec(max_freq as nat, sample_rate as nat, fft_size as nat),
{
    let all: usize = fft_size / 2 + 1;
    assert(max_freq * fft_size <= 0xffff_ffff * 0xffff_ffff_ffff_ffff) by (nonlinear_arith)
        requires
            max_freq <= 0xffff_ffff,
            fft_size <= 0xffff_ffff_ffff_ffff,
    ;
    let below: u128 = (max_freq as u128) * (fft_size as u128) / (sample_rate as u128);
    if below < all as u128 {
        below as usize
    } else {
        all
    }
}

/// Where the frames of a spectrogram start and how many bins are kept of each.
#[derive(Clone, Debug)]
pub struct FramePlan {
    pub starts: Vec<usize>,
    pub bins: usize,
}

/// Lays out the frames of a spectrogram of `sample_count` samples: frames of
/// `fft_size` samples, `hop` samples apart, of which the bins below
/// `max_freq` are kept. Fails only where there are no samples; samples too
/// few for one frame give a plan without frames.
pub fn plan_spectrogram(
    sample_count: usize,
    sample_rate: u32,
    max_freq: u32,
    fft_size: usize,
    hop: usize,
) -> (result: Result<FramePlan, AudioError>)
    requires
        sample_rate > 0,
        hop > 0,
    ensures
        result.is_err() <==> sample_count == 0,
        result matches Err(e) ==> e == AudioError::InputUnavailable,
        result matches Ok(plan) ==> {
            &&& plan.starts@.len() == frame_count(sample_count as nat, fft_size as nat, hop as nat)
            &&& forall|k: int| 0 <= k < plan.starts@.len() ==> #[trigger] plan.starts@[k] == k * hop
            &&& plan.bins == max_bin_spec(max_freq as nat, sample_rate as nat, fft_size as nat)
        },
{
    if sample_count == 0 {
        return Err(AudioError::InputUnavailable);
    }
    let starts = frame_starts(sample_count, fft_size, hop);
    let bins: usize = max_bin(max_freq, sample_rate, fft_size);
    Ok(FramePlan { starts, bins })
}

/// The start offsets of the frames are determined by the number of samples,
/// the frame length and the hop: two layouts of the same input are equal.
pub proof fn lemma_frame_starts_determined(
    a: Seq<usize>,
    b: Seq<usize>,
    len: nat,
    fft_size: nat,
    hop: nat,
)
    requires
        a.len() == frame_count(len, fft_size, hop),
        b.len() == frame_count(len, fft_size, hop),
        forall|k: int| 0 <= k < a.len() ==> #[trigger] a[k] == k * hop,
        forall|k: int| 0 <= k < b.len() ==> #[trigger] b[k] == k * hop,
    ensures
        a == b,
{
    assert(a =~= b);
}

/// The frames of a vector of vectors, each as a sequence.
pub open spec fn rows(frames: Seq<Vec<i32>>) -> Seq<Seq<i32>> {
    Seq::new(frames.len(), |k: int| frames[k]@)
}

/// Number of bins of each frame; zero where there is no frame.
pub open spec fn bin_count(levels: Seq<Seq<i32>>) -> nat {
    if levels.len() == 0 {
        0
    } else {
        levels[0].len()
    }
}

/// All frames have the same number of bins.
pub open spec fn rectangular(levels: Seq<Seq<i32>>) -> bool {
    forall|k: int| 0 <= k < levels.len() ==> (#[trigger] levels[k]).len() == bin_count(levels)
}

/// Frames of these levels, `hop` samples apart, make a spectrogram: they are
/// rectangular, and the number of levels and the last start offset fit into
/// a machine word.
pub open spec fn can_assemble(levels: Seq<Seq<i32>>, hop: nat) -> bool {
    &&& rectangular(levels)
    &&& levels.len() * bin_count(levels) <= usize::MAX
    &&& levels.len() > 0 ==> (levels.len() - 1) * hop <= usize::MAX
}

/// Levels over time and frequency: one frame per time step, one level per
/// frequency bin in thousandths of a decibel, and the sample offset at which
/// each frame starts. Frame `k` starts `k * hop / sample_rate` seconds into
/// the recording.
#[derive(Clone, Debug)]
pub struct Spectrogram {
    frames: Vec<Vec<i32>>,
    starts: Vec<usize>,
    hop: usize,
}

impl Spectrogram {
    /// The level of every bin of every frame.
    pub closed spec fn levels(&self) -> Seq<Seq<i32>> {
        rows(self.frames@)
    }

    /// The start offset of every frame.
    pub closed spec fn offsets(&self) -> Seq<usize> {
        self.starts@
    }

    /// The distance between the starts of neighbouring frames.
    pub closed spec fn spacing(&self) -> nat {
        self.hop as nat
    }

    /// The frames are rectangular, each has its start offset, frame `k`
    /// starts at `k * hop`, and the number of levels fits into a machine word.
    pub open spec fn wf(&self) -> bool {
        &&& rectangular(self.levels())
        &&& self.offsets().len() == self.levels().len()
        &&& forall|k: int|
            0 <= k < self.offsets().len() ==> #[trigger] self.offsets()[k] == k * self.spacing()
        &&& self.levels().len() * bin_count(self.levels()) <= usize::MAX
    }

    /// Puts frames that were computed one by one together, in the order
    /// given. `None` where they do not make a spectrogram.
    pub fn assemble(frames: Vec<Vec<i32>>, hop: usize) -> (assembled: Option<Spectrogram>)
        ensures
            assembled.is_some() <==> can_assemble(rows(frames@), hop as nat),
            assembled matches Some(s) ==> s.wf() && s.levels() == rows(frames@) && s.spacing()
                == hop,
    {
        let count: usize = frames.len();
        let mut starts: Vec<usize> = Vec::new();
        if count == 0 {
            return Some(Spectrogram { frames, starts, hop });
        }
        let bins: usize = frames[0].len();
        assert(rows(frames@)[0].len() == bins);
        assert(count * bins <= 0xffff_ffff_ffff_ffff * 0xffff_ffff_ffff_ffff) by (nonlinear_arith)
            requires
                0 <= count <= 0xffff_ffff_ffff_ffff,
                0 <= bins <= 0xffff_ffff_ffff_ffff,
        ;
        if (count as u128) * (bins as u128) > usize::MAX as u128 {
            return None;
        }
        let mut k: usize = 0;
        let mut start: usize = 0;
        proof {
            assert(0 * hop == 0) by (nonlinear_arith);
        }
        while k < count
            invariant
                count == frames@.len(),
                count > 0,
                bins == bin_count(rows(frames@)),
                count * bins <= usize::MAX,
                k <= count,
                starts@.len() == k,
                k < count ==> start == k * hop,
                forall|j: int| 0 <= j < k ==> #[trigger] starts@[j] == j * hop,
                forall|j: int| 0 <= j < k ==> (#[trigger] rows(frames@)[j]).len() == bins,
            decreases count - k,
        {
            if frames[k].len() != bins {
                assert(rows(frames@)[k as int].len() != bins);
                return None;
            }
            assert(rows(frames@)[k as int].len() == bins);
            starts.push(start);
            if k + 1 < count {
                proof {
                    assert((k + 1) * hop == k * hop + hop) by (nonlinear_arith);
                    assert((k + 1) * hop <= (count - 1) * hop) by (nonlinear_arith)
                        requires
                            k + 1 <= count - 1,
                            hop >= 0,
                    ;
                }
                if (start as u128) + (hop as u128) > usize::MAX as u128 {
                    return None;
                }
                start = start + hop;
            }
            k = k + 1;
        }
        assert(starts@[count - 1] == (count - 1) * hop);
        Some(Spectrogram { frames, starts, hop })
    }

    /// The frames, one vector of levels each.
    pub fn frames(&self) -> (frames: &Vec<Vec<i32>>)
        ensures
            rows(frames@) == self.levels(),
    {
        &self.frames
    }

    /// The sample offset at which each frame starts.
    pub fn starts(&self) -> (starts: &Vec<usize>)
        ensures
            starts@ == self.offsets(),
    {
        &self.starts
    }

    /// The distance between the starts of neighbouring frames.
    pub fn hop(&self) -> (hop: usize)
        ensures
            hop == self.spacing(),
    {
        self.hop
    }

    /// Number of frames.
    pub fn frame_count(&self) -> (count: usize)
        ensures
            count == self.levels().len(),
    {
        self.frames.len()
    }

    /// Number of bins of each frame; zero where there is no frame.
    pub fn bin_count(&self) -> (bins: usize)
        ensures
            bins == bin_count(self.levels()),
    {
        if self.frames.len() == 0 {
            0
        } else {
            self.frames[0].len()
        }
    }
}

/// The tags of frames that were computed out of order.
pub open spec fn tags_of(tagged: Seq<(usize, Vec<i32>)>) -> Seq<usize> {
    Seq::new(tagged.len(), |j: int| tagged[j].0)
}

/// Some tag names position `k`.
pub open spec fn names(tags: Seq<usize>, k: int) -> bool {
    exists|j: int| 0 <= j < tags.len() && #[trigger] tags[j] == k
}

/// The tags name every position below their number exactly once.
pub open spec fn is_ordering(tags: Seq<usize>) -> bool {
    &&& forall|j: int| 0 <= j < tags.len() ==> #[trigger] tags[j] < tags.len()
    &&& forall|i: int, j: int|
        0 <= i < tags.len() && 0 <= j < tags.len() && i != j ==> #[trigger] tags[i]
            != #[trigger] tags[j]
    &&& forall|k: int| 0 <= k < tags.len() ==> #[trigger] names(tags, k)
}

/// Puts frames that carry the index of their place back into that order,
/// whatever order they come in. `None` where the indices do not name every
/// place exactly once.
#[verifier::loop_isolation(false)]
pub fn place_by_index(tagged: Vec<(usize, Vec<i32>)>) -> (placed: Option<Vec<Vec<i32>>>)
    ensures
        placed.is_some() <==> is_ordering(tags_of(tagged@)),
        placed matches Some(frames) ==> frames@.len() == tagged@.len() && forall|j: int|
            0 <= j < tagged@.len() ==> frames@[(#[trigger] tagged@[j]).0 as int] == tagged@[j].1,
{
    let ghost all = tagged@;
    let ghost tags = tags_of(all);
    let n: usize = tagged.len();
    let mut slots: Vec<Option<Vec<i32>>> = Vec::new();
    let mut i: usize = 0;
    while i < n
        invariant
            i <= n,
            slots@.len() == i,
            forall|k: int| 0 <= k < i ==> (#[trigger] slots@[k]).is_none(),
        decreases n - i,
    {
        slots.push(None);
        i = i + 1;
    }
    let mut rest = tagged;
    while rest.len() > 0
        invariant
            rest@.len() <= n,
            rest@ == all.take(rest@.len() as int),
            slots@.len() == n,
            forall|j: int|
                rest@.len() <= j < n ==> (#[trigger] all[j]).0 < n && slots@[all[j].0 as int]
                    == Some(all[j].1),
            forall|k: int|
                0 <= k < n && (#[trigger] slots@[k]).is_some() ==> exists|j: int|
                    rest@.len() <= j < n && #[trigger] tags[j] == k,
            forall|a: int, b: int|
                rest@.len() <= a < n && rest@.len() <= b < n && a != b ==> #[trigger] tags[a]
                    != #[trigger] tags[b],
        decreases rest@.len(),
    {
        let ghost at = rest@.len() - 1;
        let item: (usize, Vec<i32>) = match rest.pop() {
            Some(item) => item,
            None => {
                return None;
            },
        };
        assert(item == all[at]);
        let tag: usize = item.0;
        assert(tags[at] == tag);
        if tag >= n {
            return None;
        }
        if slots[tag].is_some() {
            proof {
                let other = choose|j: int| at < j < n && #[trigger] tags[j] == tag;
                assert(tags[other] == tags[at]);
            }
            return None;
        }
        let ghost before = slots@;
        slots.set(tag, Some(item.1));
        proof {
            assert forall|j: int| at <= j < n implies (#[trigger] all[j]).0 < n && slots@[all[j].0 as int]
                == Some(all[j].1) by {
                if j > at {
                    assert(tags[j] == all[j].0);
                    assert(before[all[j].0 as int] == Some(all[j].1));
                    assert(all[j].0 != tag);
                }
            }
            assert forall|k: int| 0 <= k < n && (#[trigger] slots@[k]).is_some() implies exists|
                j: int,
            |
                at <= j < n && #[trigger] tags[j] == k by {
                if k == tag {
                    assert(tags[at] == k);
                } else {
                    assert(before[k].is_some());
                    let j = choose|j: int| at < j < n && #[trigger] tags[j] == k;
                    assert(tags[j] == k);
                }
            }
            assert forall|a: int, b: int| at <= a < n && at <= b < n && a != b implies #[trigger] tags[a]
                != #[trigger] tags[b] by {
                if a == at {
                    assert(before[all[b].0 as int] == Some(all[b].1));
                } else if b == at {
                    assert(before[all[a].0 as int] == Some(all[a].1));
                }
            }
            assert(rest@ =~= all.take(at));
        }
    }
    let mut reversed: Vec<Vec<i32>> = Vec::new();
    let ghost filled = slots@;
    proof {
        assert forall|k: int| 0 <= k < n && (#[trigger] filled[k]).is_some() implies names(
            tags,
            k,
        ) by {
            let j = choose|j: int| 0 <= j < n && #[trigger] tags[j] == k;
            assert(tags[j] == k);
        }
        assert(rest@.len() == 0);
    }
    while slots.len() > 0
        invariant
            slots@.len() <= n,
            slots@ == filled.take(slots@.len() as int),
            reversed@.len() == n - slots@.len(),
            forall|k: int|
                0 <= k < reversed@.len() ==> filled[n - 1 - k] == Some(#[trigger] reversed@[k]),
        decreases slots@.len(),
    {
        let ghost at = slots@.len() - 1;
        let slot: Option<Vec<i32>> = match slots.pop() {
            Some(slot) => slot,
            None => {
                return None;
            },
        };
        assert(slot == filled[at]);
        match slot {
            Some(frame) => {
                reversed.push(frame);
            },
            None => {
                proof {
                    if is_ordering(tags) {
                        assert(names(tags, at));
                        let j = choose|j: int| 0 <= j < tags.len() && #[trigger] tags[j] == at;
                        assert(filled[all[j].0 as int] == Some(all[j].1));
                    }
                }
                return None;
            },
        }
        assert(slots@ =~= filled.take(at));
    }
    let mut frames: Vec<Vec<i32>> = Vec::new();
    let ghost turned = reversed@;
    while reversed.len() > 0
        invariant
            reversed@.len() <= n,
            reversed@ == turned.take(reversed@.len() as int),
            frames@.len() == n - reversed@.len(),
            forall|k: int| 0 <= k < frames@.len() ==> #[trigger] frames@[k] == turned[n - 1 - k],
        decreases reversed@.len(),
    {
        let ghost at = reversed@.len() - 1;
        let frame: Vec<i32> = match reversed.pop() {
            Some(frame) => frame,
            None => {
                return None;
            },
        };
        assert(frame == turned[at]);
        frames.push(frame);
        assert(reversed@ =~= turned.take(at));
    }
    proof {
        assert forall|k: int| 0 <= k < n implies filled[k] == Some(#[trigger] frames@[k]) by {
            assert(frames@[k] == turned[n - 1 - k]);
            assert(filled[n - 1 - (n - 1 - k)] == Some(turned[n - 1 - k]));
        }
        assert forall|j: int| 0 <= j < n implies #[trigger] tags[j] < n by {
            assert(all[j].0 < n);
        }
        assert forall|k: int| 0 <= k < n implies #[trigger] names(tags, k) by {
            assert(filled[k] == Some(frames@[k]));
        }
        assert forall|j: int| 0 <= j < n implies frames@[(#[trigger] all[j]).0 as int]
            == all[j].1 by {
            assert(filled[all[j].0 as int] == Some(all[j].1));
        }
    }
    Some(frames)
}

/// Two spectrograms put together from the same frames and hop are the same:
/// the same levels at the same offsets.
pub proof fn lemma_assemble_deterministic(a: Spectrogram, b: Spectrogram)
    requires
        a.wf(),
        b.wf(),
        a.levels() == b.levels(),
        a.spacing() == b.spacing(),
    ensures
        a.offsets() =~= b.offsets(),
{
}

} // verus!
