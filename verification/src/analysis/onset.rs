//! Onsets: picking the frames in which the spectrum changes more than its surroundings.

use vstd::prelude::*;

use super::median::{median, median_of, numbers};
use super::slicer::ascending;
use crate::number::{bits_of_rank, less32, lt32, order32, rank32};

verus! {

/// Samples in one analysed frame.
pub const FFT_SIZE: usize = 1024;

/// Samples from the start of one frame to the start of the next.
pub const HOP_SIZE: usize = 512;

/// Frames over which the median is taken.
pub const MEDIAN_WINDOW: usize = 11;

/// The number of whole frames in `len` samples.
pub open spec fn frames_in(len: int) -> int {
    if len >= FFT_SIZE {
        (len - FFT_SIZE) / HOP_SIZE as int + 1
    } else {
        0
    }
}

/// The number of whole frames in `len` samples.
pub fn frame_count(len: usize) -> (n: usize)
    ensures
        n == frames_in(len as int),
{
    if len >= FFT_SIZE {
        (len - FFT_SIZE) / HOP_SIZE + 1
    } else {
        0
    }
}

/// The first frame of the window around frame `i`.
pub open spec fn window_start(i: int) -> int {
    if i >= MEDIAN_WINDOW / 2 {
        i - MEDIAN_WINDOW / 2
    } else {
        0
    }
}

/// The end of the window around frame `i` of `len`.
pub open spec fn window_end(i: int, len: int) -> int {
    if i + MEDIAN_WINDOW / 2 + 1 < len {
        i + MEDIAN_WINDOW / 2 + 1
    } else {
        len
    }
}

/// The ranks of numbers given by their bits.
pub open spec fn ranks(s: Seq<u32>) -> Seq<int> {
    s.map_values(|b: u32| rank32(b))
}

/// The median of the flux around frame `i`, as the bits of a single-precision number.
pub fn window_median(flux: &[u32], i: usize) -> (m: u32)
    requires
        i < flux@.len(),
    ensures
        m == bits_of_rank(
            median_of(
                ranks(
                    flux@.subrange(window_start(i as int), window_end(i as int, flux@.len() as int)),
                ),
            ),
        ),
{
    let half = MEDIAN_WINDOW / 2;
    let start = if i >= half {
        i - half
    } else {
        0
    };
    let end = if flux.len() - i > half + 1 {
        i + half + 1
    } else {
        flux.len()
    };
    let ghost window = flux@.subrange(start as int, end as int);
    let mut local: Vec<i128> = Vec::new();
    for k in start..end
        invariant
            start <= end <= flux@.len(),
            window == flux@.subrange(start as int, end as int),
            numbers(local@) == ranks(window).take(k - start),
            forall|j: int|
                0 <= j < local@.len() ==> -0x7FFF_FFFF <= #[trigger] local@[j] <= 0x7FFF_FFFF,
    {
        let ghost before = numbers(local@);
        local.push(order32(flux[k]) as i128);
        assert(numbers(local@) =~= before.push(rank32(flux@[k as int])));
        assert(numbers(local@) =~= ranks(window).take(k + 1 - start));
    }
    assert(ranks(window).take(end - start) =~= ranks(window));
    assert(numbers(local@).len() == local@.len());
    let m = median(&local);
    proof {
        super::median::lemma_median_splits(numbers(local@));
        let k = choose|k: int| 0 <= k < numbers(local@).len() && numbers(local@)[k] == m;
        assert(local@[k] == m);
    }
    if m >= 0 {
        m as u32
    } else {
        (0x8000_0000 - m) as u32
    }
}

/// Whether frame `i` is a peak: above its threshold and above the frame before.
pub open spec fn is_peak(flux: Seq<u32>, threshold: Seq<u32>, i: int) -> bool {
    less32(threshold[i], flux[i]) && less32(flux[i - 1], flux[i])
}

/// The sample positions of the peaks among the first `n` frames, without those that follow the
/// one before within `min_frames` frames.
pub open spec fn peaks(flux: Seq<u32>, threshold: Seq<u32>, min_frames: int, n: int) -> Seq<int>
    decreases n,
{
    if n <= 1 {
        Seq::empty()
    } else {
        let before = peaks(flux, threshold, min_frames, n - 1);
        let pos = (n - 1) * HOP_SIZE;
        if is_peak(flux, threshold, n - 1) && (before.len() == 0 || pos - before.last()
            >= min_frames * HOP_SIZE) {
            before.push(pos)
        } else {
            before
        }
    }
}

/// The onsets: sample 0, then the peaks.
pub open spec fn onsets_of(flux: Seq<u32>, threshold: Seq<u32>, min_frames: int) -> Seq<int> {
    seq![0int] + peaks(flux, threshold, min_frames, flux.len() as int)
}

/// The positions of a vector.
pub open spec fn positions(v: Seq<usize>) -> Seq<int> {
    v.map_values(|p: usize| p as int)
}

/// Detect onset times (in sample indices) from the spectral flux of each frame and its
/// threshold, both given by the bits of single-precision numbers. Sample 0 is always the first.
pub fn detect_onsets(flux: &[u32], threshold: &[u32], min_interval_frames: usize) -> (r: Vec<usize>)
    requires
        threshold@.len() >= flux@.len(),
        flux@.len() * HOP_SIZE <= usize::MAX,
        min_interval_frames * HOP_SIZE <= usize::MAX,
    ensures
        positions(r@) == onsets_of(flux@, threshold@, min_interval_frames as int),
{
    let mut onsets: Vec<usize> = Vec::new();
    let n = flux.len();
    assert(positions(onsets@) =~= Seq::<int>::empty());
    if n > 1 {
        for i in 1..n
            invariant
                n == flux@.len(),
                threshold@.len() >= n,
                n * HOP_SIZE <= usize::MAX,
                min_interval_frames * HOP_SIZE <= usize::MAX,
                positions(onsets@) == peaks(
                    flux@,
                    threshold@,
                    min_interval_frames as int,
                    i as int,
                ),
                forall|j: int| 0 <= j < onsets@.len() ==> #[trigger] onsets@[j] < i * HOP_SIZE,
        {
            let ghost before = positions(onsets@);
            assert(before.len() == onsets@.len());
            if lt32(threshold[i], flux[i]) && lt32(flux[i - 1], flux[i]) {
                let sample_pos = i * HOP_SIZE;
                if onsets.len() == 0 || sample_pos - onsets[onsets.len() - 1]
                    >= min_interval_frames * HOP_SIZE {
                    onsets.push(sample_pos);
                    assert(positions(onsets@) =~= before.push(sample_pos as int));
                }
            }
        }
    }
    let ghost found = positions(onsets@);
    onsets.insert(0, 0);
    assert(positions(onsets@) =~= seq![0int] + found);
    onsets
}

/// The onsets ascend from 0, lie at frame starts within the frames, and those after the first
/// two are at least the minimum interval apart.
pub proof fn lemma_onsets(flux: Seq<u32>, threshold: Seq<u32>, min_frames: int)
    ensures
        ({
            let o = onsets_of(flux, threshold, min_frames);
            &&& o[0] == 0
            &&& forall|i: int, j: int| 0 <= i < j < o.len() ==> o[i] < o[j]
            &&& forall|i: int|
                #![trigger o[i]]
                1 <= i < o.len() ==> o[i] <= (flux.len() - 1) * HOP_SIZE
            &&& forall|i: int|
                #![trigger o[i]]
                2 <= i < o.len() ==> o[i] - o[i - 1] >= min_frames * HOP_SIZE
        }),
{
    let p = peaks(flux, threshold, min_frames, flux.len() as int);
    let o = onsets_of(flux, threshold, min_frames);
    lemma_peaks(flux, threshold, min_frames, flux.len() as int);
    assert forall|i: int, j: int| 0 <= i < j < o.len() implies o[i] < o[j] by {
        assert(o[j] == p[j - 1]);
        if i > 0 {
            assert(o[i] == p[i - 1]);
        }
    }
    assert forall|i: int| #![trigger o[i]] 2 <= i < o.len() implies o[i] - o[i - 1] >= min_frames
        * HOP_SIZE by {
        assert(o[i] == p[i - 1]);
        assert(o[i - 1] == p[i - 2]);
    }
}

proof fn lemma_peaks(flux: Seq<u32>, threshold: Seq<u32>, min_frames: int, n: int)
    ensures
        ({
            let p = peaks(flux, threshold, min_frames, n);
            &&& forall|i: int| 0 <= i < p.len() ==> 0 < #[trigger] p[i] <= (n - 1) * HOP_SIZE
            &&& forall|i: int, j: int| 0 <= i < j < p.len() ==> p[i] < p[j]
            &&& forall|i: int|
                #![trigger p[i]]
                1 <= i < p.len() ==> p[i] - p[i - 1] >= min_frames * HOP_SIZE
        }),
    decreases n,
{
    if n > 1 {
        lemma_peaks(flux, threshold, min_frames, n - 1);
        let before = peaks(flux, threshold, min_frames, n - 1);
        let p = peaks(flux, threshold, min_frames, n);
        let pos = (n - 1) * HOP_SIZE;
        if p != before {
            assert(p == before.push(pos));
            assert forall|i: int, j: int| 0 <= i < j < p.len() implies p[i] < p[j] by {
                assert(p[i] == before[i]);
                if j < before.len() {
                    assert(p[j] == before[j]);
                }
            }
            assert forall|i: int| #![trigger p[i]] 1 <= i < p.len() implies p[i] - p[i - 1]
                >= min_frames * HOP_SIZE by {
                assert(p[i - 1] == before[i - 1]);
                if i < before.len() {
                    assert(p[i] == before[i]);
                }
            }
        }
    }
}

/// Onsets detected in the whole frames of some audio lie within it and ascend.
pub proof fn lemma_onsets_within(
    r: Seq<usize>,
    flux: Seq<u32>,
    threshold: Seq<u32>,
    min_frames: int,
    len: int,
)
    requires
        positions(r) == onsets_of(flux, threshold, min_frames),
        flux.len() == frames_in(len),
        len >= 0,
    ensures
        ascending(r),
        r.len() > 0 && r[0] == 0,
        forall|i: int| 0 <= i < r.len() ==> #[trigger] r[i] <= len,
{
    let o = positions(r);
    lemma_onsets(flux, threshold, min_frames);
    assert(o.len() == r.len());
    assert(o[0] == r[0]);
    assert forall|i: int, j: int| 0 <= i <= j < r.len() implies r[i] <= r[j] by {
        assert(o[i] == r[i] && o[j] == r[j]);
    }
    assert forall|i: int| 0 <= i < r.len() implies #[trigger] r[i] <= len by {
        assert(o[i] == r[i]);
        if len < FFT_SIZE && i >= 1 {
            assert(o[i] == peaks(flux, threshold, min_frames, flux.len() as int)[i - 1]);
        }
    }
}

/// A frame is an onset exactly where its flux is above its threshold and above that of the frame
/// before, and no onset after the first sample lies less than the minimum interval before it. There
/// are no other onsets but the first sample.
pub proof fn lemma_which_frames_are_onsets(
    flux: Seq<u32>,
    threshold: Seq<u32>,
    min_frames: int,
    i: int,
)
    requires
        1 <= i < flux.len(),
    ensures
        ({
            let o = onsets_of(flux, threshold, min_frames);
            &&& (exists|k: int| 1 <= k < o.len() && #[trigger] o[k] == i * 512) <==> {
                &&& less32(threshold[i], flux[i])
                &&& less32(flux[i - 1], flux[i])
                &&& forall|k: int|
                    1 <= k < o.len() && #[trigger] o[k] < i * 512 ==> i * 512 - o[k] >= min_frames * 512
            }
            &&& forall|k: int|
                1 <= k < o.len() ==> exists|f: int| 1 <= f < flux.len() && #[trigger] o[k] == #[trigger] (f * 512)
        }),
{
    let o = onsets_of(flux, threshold, min_frames);
    let n = flux.len() as int;
    let p = peaks(flux, threshold, min_frames, n);
    lemma_peaks_picked(flux, threshold, min_frames, n, i);
    assert forall|k: int| 1 <= k < o.len() implies exists|f: int|
        1 <= f < flux.len() && #[trigger] o[k] == #[trigger] (f * 512) by {
        assert(o[k] == p[k - 1]);
        let f = choose|f: int| 1 <= f < n && p[k - 1] == #[trigger] (f * 512);
        assert(o[k] == f * 512);
    }
    if exists|k: int| 1 <= k < o.len() && #[trigger] o[k] == i * 512 {
        let k = choose|k: int| 1 <= k < o.len() && #[trigger] o[k] == i * 512;
        assert(p[k - 1] == i * 512);
        assert forall|j: int| 1 <= j < o.len() && #[trigger] o[j] < i * 512 implies i * 512 - o[j]
            >= min_frames * 512 by {
            assert(o[j] == p[j - 1]);
        }
    }
    if less32(threshold[i], flux[i]) && less32(flux[i - 1], flux[i]) && forall|k: int|
        1 <= k < o.len() && #[trigger] o[k] < i * 512 ==> i * 512 - o[k] >= min_frames * 512 {
        assert forall|j: int| 0 <= j < p.len() && #[trigger] p[j] < i * 512 implies i * 512 - p[j]
            >= min_frames * 512 by {
            assert(p[j] == o[j + 1]);
        }
        let k = choose|k: int| 0 <= k < p.len() && p[k] == i * 512;
        assert(o[k + 1] == i * 512);
    }
}

proof fn lemma_peaks_picked(
    flux: Seq<u32>,
    threshold: Seq<u32>,
    min_frames: int,
    n: int,
    i: int,
)
    ensures
        ({
            let p = peaks(flux, threshold, min_frames, n);
            &&& forall|k: int|
                0 <= k < p.len() ==> exists|f: int| 1 <= f < n && #[trigger] p[k] == #[trigger] (f * 512)
            &&& 1 <= i < n ==> (p.contains(i * 512) <==> {
                &&& is_peak(flux, threshold, i)
                &&& forall|k: int|
                    0 <= k < p.len() && #[trigger] p[k] < i * 512 ==> i * 512 - p[k] >= min_frames * 512
            })
        }),
    decreases n,
{
    if n > 1 {
        lemma_peaks_picked(flux, threshold, min_frames, n - 1, i);
        lemma_peaks(flux, threshold, min_frames, n - 1);
        let before = peaks(flux, threshold, min_frames, n - 1);
        let p = peaks(flux, threshold, min_frames, n);
        let pos = (n - 1) * HOP_SIZE;
        assert forall|k: int| 0 <= k < p.len() implies exists|f: int|
            1 <= f < n && #[trigger] p[k] == #[trigger] (f * 512) by {
            if k < before.len() {
                assert(p[k] == before[k]);
                let f = choose|f: int| 1 <= f < n - 1 && before[k] == #[trigger] (f * 512);
                assert(p[k] == f * 512);
            } else {
                assert(p[k] == (n - 1) * 512);
            }
        }
        if i == n - 1 {
            assert(!before.contains(i * 512)) by {
                if before.contains(i * 512) {
                    let k = choose|k: int| 0 <= k < before.len() && before[k] == i * 512;
                    assert(before[k] <= (n - 2) * HOP_SIZE);
                }
            }
            if p == before.push(pos) {
                assert(p[before.len() as int] == pos);
                assert forall|k: int| 0 <= k < p.len() && #[trigger] p[k] < i * 512 implies i * 512
                    - p[k] >= min_frames * 512 by {
                    assert(p[k] == before[k]);
                    assert(before[k] <= before[before.len() - 1]);
                }
            } else {
                assert(p == before);
                if before.len() > 0 {
                    assert(p[before.len() - 1] < i * 512);
                }
            }
        } else if 1 <= i < n - 1 {
            if p == before.push(pos) {
                if p.contains(i * 512) {
                    let k = choose|k: int| 0 <= k < p.len() && p[k] == i * 512;
                    assert(before[k] == i * 512);
                }
                if before.contains(i * 512) {
                    let k = choose|k: int| 0 <= k < before.len() && before[k] == i * 512;
                    assert(p[k] == i * 512);
                }
                assert forall|k: int| 0 <= k < before.len() implies p[k] == before[k] by {}
                if forall|k: int|
                    0 <= k < p.len() && #[trigger] p[k] < i * 512 ==> i * 512 - p[k] >= min_frames
                        * 512 {
                    assert forall|k: int| 0 <= k < before.len() && #[trigger] before[k] < i
                        * 512 implies i * 512 - before[k] >= min_frames * 512 by {
                        assert(p[k] == before[k]);
                    }
                }
            }
        }
    }
}

/// The window around a frame holds the frames no more than five away, as far as there are any.
pub proof fn lemma_window_is_eleven_frames(i: int, len: int, k: int)
    requires
        0 <= i < len,
    ensures
        window_start(i) <= k < window_end(i, len) <==> 0 <= k < len && -5 <= k - i <= 5,
{
}

/// There are as many frames as fit: frames of 1024 samples, each 512 after the one before.
pub proof fn lemma_frames_fill_the_audio(len: int, f: int)
    requires
        len >= 0,
        f >= 0,
    ensures
        f < frames_in(len) <==> f * 512 + 1024 <= len,
{
}

} // verus!
