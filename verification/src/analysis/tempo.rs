//! Tempo: the typical distance between onsets, and tempos brought into range by octaves.

use vstd::prelude::*;

use crate::number::at_most64;

use super::median::{
    above, below, lemma_median_is_in_the_middle, median, median_of, numbers,
};

verus! {

/// The distances between successive onsets among the first `n`, without those that do not go
/// forward.
pub open spec fn intervals(onsets: Seq<usize>, n: int) -> Seq<int>
    decreases n,
{
    if n <= 1 {
        Seq::empty()
    } else if onsets[n - 1] > onsets[n - 2] {
        intervals(onsets, n - 1).push(onsets[n - 1] - onsets[n - 2])
    } else {
        intervals(onsets, n - 1)
    }
}

/// The median distance between successive onsets, in samples; `None` where no onset follows
/// another.
pub fn median_interval(onsets: &[usize]) -> (r: Option<usize>)
    ensures
        ({
            let all = intervals(onsets@, onsets@.len() as int);
            match r {
                Some(m) => all.len() > 0 && m == median_of(all) && m > 0,
                None => all.len() == 0,
            }
        }),
{
    let n = onsets.len();
    let mut found: Vec<i128> = Vec::new();
    assert(numbers(found@) =~= Seq::<int>::empty());
    if n < 2 {
        return None;
    }
    for i in 1..n
        invariant
            n == onsets@.len(),
            numbers(found@) == intervals(onsets@, i as int),
            forall|j: int| 0 <= j < found@.len() ==> 0 < #[trigger] found@[j] <= usize::MAX,
    {
        if onsets[i] > onsets[i - 1] {
            let ghost before = numbers(found@);
            let diff: usize = onsets[i] - onsets[i - 1];
            found.push(diff as i128);
            assert(numbers(found@) =~= before.push(diff as int));
        }
    }
    assert(numbers(found@).len() == found@.len());
    if found.len() == 0 {
        return None;
    }
    let m = median(&found);
    proof {
        super::median::lemma_median_splits(numbers(found@));
        let k = choose|k: int| 0 <= k < numbers(found@).len() && numbers(found@)[k] == m;
        assert(found@[k] == m);
    }
    Some(m as usize)
}

/// The bits of 60 in double precision.
pub const SLOWEST: u64 = 0x404E_0000_0000_0000;

/// The bits of 200 in double precision.
pub const FASTEST: u64 = 0x4069_0000_0000_0000;

/// The bits of 120 in double precision: the tempo where there is nothing to tell it by.
pub const DEFAULT_TEMPO: u64 = 0x405E_0000_0000_0000;

/// What twice a number has in its bits beyond those of the number.
pub const OCTAVE: u64 = 0x0010_0000_0000_0000;

/// The bits are those of a number above 0 that is neither infinite nor denormal.
pub open spec fn ordinary(bits: u64) -> bool {
    OCTAVE <= bits < 0x7FF0_0000_0000_0000
}

/// A tempo halved until it is no longer too fast.
pub open spec fn halved(bits: u64) -> u64
    decreases bits,
{
    if bits > FASTEST {
        halved((bits - OCTAVE) as u64)
    } else {
        bits
    }
}

/// A tempo doubled until it is no longer too slow.
pub open spec fn doubled(bits: u64) -> u64
    decreases FASTEST - bits,
{
    if bits < SLOWEST {
        doubled((bits + OCTAVE) as u64)
    } else {
        bits
    }
}

/// Clamp a tempo, given by its bits, to 60-200 BPM by halving or doubling.
pub fn fold_tempo(bits: u64) -> (r: u64)
    requires
        ordinary(bits),
    ensures
        r == doubled(halved(bits)),
{
    let mut b = bits;
    while b > FASTEST
        invariant
            halved(b) == halved(bits),
            ordinary(b),
        decreases b,
    {
        b = b - OCTAVE;
    }
    let ghost high = b;
    while b < SLOWEST
        invariant
            doubled(b) == doubled(high),
            ordinary(b),
        decreases FASTEST - b,
    {
        b = b + OCTAVE;
    }
    b
}

/// The same number but for a power of two.
pub open spec fn octaves_apart(a: u64, b: u64) -> bool {
    (a as int - b as int) % (OCTAVE as int) == 0
}

/// A folded tempo lies from 60 to 200 and is the tempo times a power of two; one that lies there
/// already stays as it is.
pub proof fn lemma_folded_tempo(bits: u64)
    requires
        ordinary(bits),
    ensures
        ({
            let r = doubled(halved(bits));
            &&& at_most64(SLOWEST, r) && at_most64(r, FASTEST)
            &&& octaves_apart(r, bits)
            &&& SLOWEST <= bits <= FASTEST ==> r == bits
        }),
{
    lemma_halved(bits);
    lemma_doubled(halved(bits));
}

proof fn lemma_halved(bits: u64)
    requires
        ordinary(bits),
    ensures
        OCTAVE <= halved(bits) <= FASTEST,
        bits > FASTEST ==> halved(bits) > FASTEST - OCTAVE,
        octaves_apart(halved(bits), bits),
    decreases bits,
{
    if bits > FASTEST {
        lemma_halved((bits - OCTAVE) as u64);
    }
}

proof fn lemma_doubled(bits: u64)
    requires
        OCTAVE <= bits <= FASTEST,
    ensures
        SLOWEST <= doubled(bits) <= FASTEST,
        octaves_apart(doubled(bits), bits),
    decreases FASTEST - bits,
{
    if bits < SLOWEST {
        lemma_doubled((bits + OCTAVE) as u64);
    }
}

/// How many onsets follow the one before at a distance above `lo` and below `hi`, among the first `n`.
pub open spec fn gaps_between(onsets: Seq<usize>, n: int, lo: int, hi: int) -> nat
    decreases n,
{
    if n <= 1 {
        0
    } else {
        gaps_between(onsets, n - 1, lo, hi) + if lo < onsets[n - 1] as int - onsets[n - 2] as int
            && (onsets[n - 1] as int - onsets[n - 2] as int) < hi {
            1nat
        } else {
            0nat
        }
    }
}

proof fn lemma_intervals_counted(onsets: Seq<usize>, n: int, m: int)
    requires
        n <= onsets.len(),
        m >= 0,
    ensures
        intervals(onsets, n).len() == gaps_between(onsets, n, 0, usize::MAX + 1),
        below(intervals(onsets, n), m) == gaps_between(onsets, n, 0, m),
        above(intervals(onsets, n), m) == gaps_between(onsets, n, m, usize::MAX + 1),
        forall|k: int|
            0 <= k < intervals(onsets, n).len() ==> exists|i: int|
                0 < i < n && #[trigger] intervals(onsets, n)[k] == onsets[i] as int - #[trigger] onsets[i
                    - 1] as int,
    decreases n,
{
    if n > 1 {
        lemma_intervals_counted(onsets, n - 1, m);
        let before = intervals(onsets, n - 1);
        let all = intervals(onsets, n);
        let gap = onsets[n - 1] as int - onsets[n - 2] as int;
        if gap > 0 {
            assert(before.push(gap).drop_last() =~= before);
        }
        assert forall|k: int| 0 <= k < all.len() implies exists|i: int|
            0 < i < n && #[trigger] all[k] == onsets[i] as int - #[trigger] onsets[i - 1] as int by {
            if k < before.len() {
                assert(all[k] == before[k]);
                let i = choose|i: int|
                    0 < i < n - 1 && before[k] == onsets[i] as int - #[trigger] onsets[i - 1] as int;
                assert(all[k] == onsets[i] as int - onsets[i - 1] as int);
            } else {
                assert(all[k] == onsets[n - 1] as int - onsets[(n - 1) - 1] as int);
            }
        }
    }
}

/// The typical distance is that of two successive onsets, every pair of which that goes forward
/// counts once. No more than half of these distances are shorter, and fewer than half are longer.
pub proof fn lemma_typical_distance(onsets: Seq<usize>)
    ensures
        ({
            let n = onsets.len() as int;
            let all = intervals(onsets, n);
            let m = median_of(all);
            let count = gaps_between(onsets, n, 0, usize::MAX + 1);
            &&& all.len() == count
            &&& count > 0 ==> {
                &&& exists|i: int|
                    0 < i < n && m == onsets[i] as int - #[trigger] onsets[i - 1] as int
                &&& m > 0
                &&& 2 * gaps_between(onsets, n, 0, m) <= count
                &&& 2 * gaps_between(onsets, n, m, usize::MAX + 1) < count
            }
        }),
{
    let n = onsets.len() as int;
    let all = intervals(onsets, n);
    let m = median_of(all);
    lemma_intervals_counted(onsets, n, 0);
    if all.len() > 0 {
        lemma_median_is_in_the_middle(all);
        lemma_intervals_forward(onsets, n);
        let k = choose|k: int| 0 <= k < all.len() && all[k] == m;
        assert(all[k] > 0);
        lemma_intervals_counted(onsets, n, m);
        let i = choose|i: int|
            0 < i < n && all[k] == onsets[i] as int - #[trigger] onsets[i - 1] as int;
        assert(m == onsets[i] as int - onsets[i - 1] as int);
    }
}

proof fn lemma_intervals_forward(onsets: Seq<usize>, n: int)
    ensures
        forall|k: int| 0 <= k < intervals(onsets, n).len() ==> #[trigger] intervals(onsets, n)[k] > 0,
    decreases n,
{
    if n > 1 {
        lemma_intervals_forward(onsets, n - 1);
        let before = intervals(onsets, n - 1);
        let all = intervals(onsets, n);
        assert forall|k: int| 0 <= k < all.len() implies #[trigger] all[k] > 0 by {
            if k < before.len() {
                assert(all[k] == before[k]);
            }
        }
    }
}

/// Onsets that ascend strictly have one distance for each pair of neighbours, in order: evenly spaced
/// ones count as often as there are pairs.
pub proof fn lemma_every_distance_counts(onsets: Seq<usize>, n: int, i: int)
    requires
        1 <= n <= onsets.len(),
        forall|a: int, b: int| 0 <= a < b < onsets.len() ==> onsets[a] < onsets[b],
        0 <= i < n - 1,
    ensures
        intervals(onsets, n).len() == n - 1,
        intervals(onsets, n)[i] == onsets[i + 1] - onsets[i],
    decreases n,
{
    if n > 1 {
        assert(onsets[n - 2] < onsets[n - 1]);
        if n == 2 {
            assert(intervals(onsets, 1).len() == 0);
        } else if i < n - 2 {
            lemma_every_distance_counts(onsets, n - 1, i);
        } else {
            lemma_every_distance_counts(onsets, n - 1, 0);
        }
    }
}

/// A tempo above 200 is halved no further than to 200, one below 60 is doubled no further than to 60.
pub proof fn lemma_folded_no_further(bits: u64)
    requires
        ordinary(bits),
    ensures
        bits > FASTEST ==> doubled(halved(bits)) + OCTAVE > FASTEST && doubled(halved(bits)) <= FASTEST,
        bits < SLOWEST ==> doubled(halved(bits)) < SLOWEST + OCTAVE && doubled(halved(bits)) >= SLOWEST,
{
    lemma_halved(bits);
    lemma_doubled(halved(bits));
    lemma_doubled_no_further(halved(bits));
}

proof fn lemma_doubled_no_further(bits: u64)
    requires
        OCTAVE <= bits <= FASTEST,
    ensures
        bits < SLOWEST ==> doubled(bits) < SLOWEST + OCTAVE,
        bits >= SLOWEST ==> doubled(bits) == bits,
    decreases FASTEST - bits,
{
    if bits < SLOWEST {
        lemma_doubled_no_further((bits + OCTAVE) as u64);
    }
}

} // verus!
