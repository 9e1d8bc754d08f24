//! Cutting audio into slices of roughly equal length, at onsets and zero crossings.

use vstd::prelude::*;

use crate::float;
use crate::float::{Binary, Dyadic, DOUBLE};
use crate::number::{at_most32, le32, less32, lt32};

verus! {

/// The most slices that all banks together hold.
pub const MAX_SLICES: usize = 320;

/// The slices that one bank of pads plays.
pub const SLICES_PER_BANK: usize = 16;

/// The significand of the part of an ideal slice that a boundary may move to an onset: two fifths
/// in double precision, times `2^54`.
pub const SNAP_FRACTION: u64 = 0x19_9999_9999_999A;

/// Maximum samples to search for a zero crossing.
pub const ZERO_CROSS_WINDOW: usize = 64;

/// A slice of audio defined by sample index range.
#[derive(Debug, Clone, Copy, PartialEq, Eq, Structural)]
pub struct Slice {
    pub start: usize,
    pub end: usize,
}

/// Whether the waveform goes through zero between two consecutive samples, given by their bits.
pub open spec fn crosses_zero(a: u32, b: u32) -> bool {
    (at_most32(a, 0) && less32(0, b)) || (at_most32(0, a) && less32(b, 0))
}

/// Check if two consecutive samples represent a zero crossing.
pub fn is_zero_crossing(a: u32, b: u32) -> (r: bool)
    ensures
        r == crosses_zero(a, b),
{
    (le32(a, 0) && lt32(0, b)) || (le32(0, a) && lt32(b, 0))
}

/// Whether sample `p` is the first after a zero crossing.
pub open spec fn after_crossing(samples: Seq<u32>, p: int) -> bool {
    1 <= p < samples.len() && crosses_zero(samples[p - 1], samples[p])
}

/// The last position in `lo + 1 ..= hi` that follows a zero crossing.
pub open spec fn crossing_before(samples: Seq<u32>, lo: int, hi: int) -> Option<int>
    decreases hi - lo,
{
    if hi <= lo {
        None
    } else if after_crossing(samples, hi) {
        Some(hi)
    } else {
        crossing_before(samples, lo, hi - 1)
    }
}

/// The first position in `lo + 1 ..= hi` that follows a zero crossing.
pub open spec fn crossing_after(samples: Seq<u32>, lo: int, hi: int) -> Option<int>
    decreases hi - lo,
{
    if hi <= lo {
        None
    } else if after_crossing(samples, lo + 1) {
        Some(lo + 1)
    } else {
        crossing_after(samples, lo + 1, hi)
    }
}

/// The position after the zero crossing nearest to `pos` within the window, the earlier one
/// where two are as near; `pos` itself where there is none, or at the start.
pub open spec fn at_zero_crossing(pos: int, samples: Seq<u32>) -> int {
    if pos == 0 || samples.len() == 0 {
        pos
    } else {
        let lo = if pos > ZERO_CROSS_WINDOW {
            pos - ZERO_CROSS_WINDOW
        } else {
            0
        };
        match (
            crossing_before(samples, lo, pos),
            crossing_after(samples, pos, pos + ZERO_CROSS_WINDOW),
        ) {
            (Some(b), Some(a)) => if a - pos < pos - b {
                a
            } else {
                b
            },
            (Some(b), None) => b,
            (None, Some(a)) => a,
            (None, None) => pos,
        }
    }
}

proof fn lemma_crossing_before(samples: Seq<u32>, lo: int, hi: int)
    ensures
        crossing_before(samples, lo, hi) matches Some(p) ==> lo < p <= hi && after_crossing(
            samples,
            p,
        ),
    decreases hi - lo,
{
    if hi > lo && !after_crossing(samples, hi) {
        lemma_crossing_before(samples, lo, hi - 1);
    }
}

proof fn lemma_crossing_after(samples: Seq<u32>, lo: int, hi: int)
    ensures
        crossing_after(samples, lo, hi) matches Some(p) ==> lo < p <= hi && after_crossing(
            samples,
            p,
        ),
    decreases hi - lo,
{
    if hi > lo && !after_crossing(samples, lo + 1) {
        lemma_crossing_after(samples, lo + 1, hi);
    }
}

proof fn lemma_no_crossing_outside(samples: Seq<u32>, lo: int, hi: int)
    requires
        lo >= samples.len() - 1,
    ensures
        crossing_after(samples, lo, hi) is None,
    decreases hi - lo,
{
    if hi > lo {
        lemma_no_crossing_outside(samples, lo + 1, hi);
    }
}

/// Find the nearest zero crossing to `pos` within ZERO_CROSS_WINDOW samples.
/// A zero crossing is where the waveform crosses through zero (sign change).
/// Returns the position just after the crossing (where the new sign begins).
pub fn snap_to_zero_crossing(pos: usize, samples: &[u32]) -> (r: usize)
    ensures
        r == at_zero_crossing(pos as int, samples@),
{
    if pos == 0 || samples.len() == 0 {
        return pos;
    }
    let len = samples.len();
    let lo: usize = if pos > ZERO_CROSS_WINDOW {
        pos - ZERO_CROSS_WINDOW
    } else {
        0
    };
    // Search backward from pos
    let mut before: Option<usize> = None;
    let mut p = pos;
    while p > lo && before.is_none()
        invariant
            lo <= p <= pos,
            len == samples@.len(),
            before matches Some(b) ==> crossing_before(samples@, lo as int, pos as int) == Some(
                b as int,
            ) && b <= pos,
            before is None ==> crossing_before(samples@, lo as int, pos as int) == crossing_before(
                samples@,
                lo as int,
                p as int,
            ),
        decreases p,
    {
        if p < len && is_zero_crossing(samples[p - 1], samples[p]) {
            before = Some(p);
        }
        p = p - 1;
    }
    // Search forward from pos
    let mut after: Option<usize> = None;
    let mut q = pos;
    while q < len - 1 && q - pos < ZERO_CROSS_WINDOW && after.is_none()
        invariant
            pos <= q,
            q - pos <= ZERO_CROSS_WINDOW,
            len == samples@.len(),
            len > 0,
            after matches Some(a) ==> crossing_after(
                samples@,
                pos as int,
                pos + ZERO_CROSS_WINDOW,
            ) == Some(a as int) && a > pos,
            after is None ==> crossing_after(samples@, pos as int, pos + ZERO_CROSS_WINDOW)
                == crossing_after(samples@, q as int, pos + ZERO_CROSS_WINDOW),
        decreases len - q,
    {
        if is_zero_crossing(samples[q], samples[q + 1]) {
            after = Some(q + 1);
        }
        q = q + 1;
    }
    proof {
        if after is None && q >= len - 1 {
            lemma_no_crossing_outside(samples@, q as int, pos + ZERO_CROSS_WINDOW);
        }
    }
    match (before, after) {
        (Some(b), Some(a)) => if a - pos < pos - b {
            a
        } else {
            b
        },
        (Some(b), None) => b,
        (None, Some(a)) => a,
        (None, None) => pos,
    }
}

/// Positions in ascending order.
pub open spec fn ascending(onsets: Seq<usize>) -> bool {
    forall|i: int, j: int| 0 <= i <= j < onsets.len() ==> onsets[i] <= onsets[j]
}

/// How far apart two positions are.
pub open spec fn distance(a: int, b: int) -> int {
    if a < b {
        b - a
    } else {
        a - b
    }
}

/// The onset nearest to `pos`, the earlier one where two are as near.
pub open spec fn nearest(pos: int, onsets: Seq<usize>) -> int
    decreases onsets.len(),
{
    if onsets.len() == 0 {
        pos
    } else if onsets.len() == 1 {
        onsets[0] as int
    } else {
        let before = nearest(pos, onsets.drop_last());
        if distance(onsets.last() as int, pos) < distance(before, pos) {
            onsets.last() as int
        } else {
            before
        }
    }
}

/// The onset nearest to `pos` where it is within `max_distance`, else `pos`.
pub open spec fn at_onset(pos: int, onsets: Seq<usize>, max_distance: int) -> int {
    if distance(nearest(pos, onsets), pos) <= max_distance {
        nearest(pos, onsets)
    } else {
        pos
    }
}

proof fn lemma_nearest(pos: int, onsets: Seq<usize>, k: int)
    requires
        ascending(onsets),
        0 <= k < onsets.len(),
        forall|j: int|
            0 <= j < onsets.len() ==> distance(onsets[k] as int, pos) <= distance(
                #[trigger] onsets[j] as int,
                pos,
            ),
        forall|j: int|
            0 <= j < onsets.len() && onsets[j] < onsets[k] ==> distance(onsets[k] as int, pos)
                < distance(#[trigger] onsets[j] as int, pos),
    ensures
        nearest(pos, onsets) == onsets[k],
    decreases onsets.len(),
{
    if onsets.len() > 1 {
        let init = onsets.drop_last();
        assert forall|j: int| 0 <= j < init.len() implies init[j] == onsets[j] by {}
        if k < init.len() {
            lemma_nearest(pos, init, k);
        } else if onsets[k - 1] == onsets[k] {
            lemma_nearest(pos, init, k - 1);
        } else {
            lemma_nearest_member(pos, init);
        }
    }
}

proof fn lemma_nearest_member(pos: int, onsets: Seq<usize>)
    requires
        onsets.len() > 0,
    ensures
        exists|j: int| 0 <= j < onsets.len() && nearest(pos, onsets) == #[trigger] onsets[j],
    decreases onsets.len(),
{
    if onsets.len() == 1 {
        assert(nearest(pos, onsets) == onsets[0]);
    } else {
        let init = onsets.drop_last();
        lemma_nearest_member(pos, init);
        let j = choose|j: int| 0 <= j < init.len() && nearest(pos, init) == #[trigger] init[j];
        assert(init[j] == onsets[j]);
        assert(onsets.last() == onsets[onsets.len() - 1]);
    }
}

/// The number of onsets before `pos`.
fn onsets_before(pos: usize, onsets: &[usize]) -> (idx: usize)
    requires
        ascending(onsets@),
    ensures
        idx <= onsets@.len(),
        forall|j: int| 0 <= j < idx ==> onsets@[j] < pos,
        forall|j: int| idx <= j < onsets@.len() ==> onsets@[j] >= pos,
{
    let mut lo: usize = 0;
    let mut hi: usize = onsets.len();
    while lo < hi
        invariant
            ascending(onsets@),
            lo <= hi <= onsets@.len(),
            forall|j: int| 0 <= j < lo ==> onsets@[j] < pos,
            forall|j: int| hi <= j < onsets@.len() ==> onsets@[j] >= pos,
        decreases hi - lo,
    {
        let mid = lo + (hi - lo) / 2;
        if onsets[mid] < pos {
            lo = mid + 1;
        } else {
            hi = mid;
        }
    }
    lo
}

/// Find the onset nearest to `pos`. If the closest onset is within
/// `max_distance`, return it; otherwise return `pos` unchanged.
pub fn snap_to_nearest_onset(pos: usize, onsets: &[usize], max_distance: usize) -> (r: usize)
    requires
        ascending(onsets@),
    ensures
        r == at_onset(pos as int, onsets@, max_distance as int),
{
    let idx = onsets_before(pos, onsets);
    if idx < onsets.len() && onsets[idx] == pos {
        proof {
            lemma_nearest(pos as int, onsets@, idx as int);
        }
        return pos;
    }
    let (closest, dist) = if idx > 0 {
        let bv = onsets[idx - 1];
        let bd = pos - bv;
        if idx < onsets.len() {
            let av = onsets[idx];
            let ad = av - pos;
            if bd <= ad {
                proof {
                    lemma_nearest(pos as int, onsets@, idx - 1);
                }
                (bv, bd)
            } else {
                proof {
                    lemma_nearest(pos as int, onsets@, idx as int);
                }
                (av, ad)
            }
        } else {
            proof {
                lemma_nearest(pos as int, onsets@, idx - 1);
            }
            (bv, bd)
        }
    } else if idx < onsets.len() {
        proof {
            lemma_nearest(pos as int, onsets@, 0);
        }
        (onsets[idx], onsets[idx] - pos)
    } else {
        (pos, 0)
    };
    if dist <= max_distance {
        closest
    } else {
        pos
    }
}

/// Snapping moves to an onset that no other onset is nearer than, or not at all where every
/// onset is out of reach.
pub proof fn lemma_snaps_to_nearest(pos: int, onsets: Seq<usize>, max_distance: int)
    requires
        max_distance >= 0,
    ensures
        ({
            let r = at_onset(pos, onsets, max_distance);
            &&& distance(r, pos) <= max_distance
            &&& (r != pos ==> exists|j: int| 0 <= j < onsets.len() && #[trigger] onsets[j] == r)
            &&& forall|j: int|
                0 <= j < onsets.len() && distance(#[trigger] onsets[j] as int, pos) <= max_distance
                    ==> distance(r, pos) <= distance(onsets[j] as int, pos)
        }),
{
    if onsets.len() > 0 {
        lemma_nearest_member(pos, onsets);
        lemma_nearest_least(pos, onsets);
    }
}

proof fn lemma_nearest_least(pos: int, onsets: Seq<usize>)
    requires
        onsets.len() > 0,
    ensures
        forall|j: int|
            0 <= j < onsets.len() ==> distance(nearest(pos, onsets), pos) <= distance(
                #[trigger] onsets[j] as int,
                pos,
            ),
    decreases onsets.len(),
{
    if onsets.len() > 1 {
        let init = onsets.drop_last();
        lemma_nearest_least(pos, init);
        assert forall|j: int| 0 <= j < onsets.len() implies distance(nearest(pos, onsets), pos)
            <= distance(#[trigger] onsets[j] as int, pos) by {
            if j < init.len() {
                assert(init[j] == onsets[j]);
            }
        }
    }
}

/// The length of one of `target` equal parts, in double precision.
pub open spec fn ideal_len(total: int, target: int) -> Dyadic {
    float::quotient(
        float::nearest(total, 1, DOUBLE as int),
        float::nearest(target, 1, DOUBLE as int),
        DOUBLE as int,
    )
}

/// The position at which part `i` of `target` equal parts starts: so many times the length of a
/// part, in double precision, rounded to the nearest sample.
pub open spec fn ideal_position(i: int, total: int, target: int) -> int {
    let start = float::product(
        float::nearest(i, 1, DOUBLE as int),
        ideal_len(total, target),
        DOUBLE as int,
    );
    float::at_most(float::to_whole(start), usize::MAX as int)
}

/// The double-precision number nearest to two fifths.
pub open spec fn snap_fraction() -> Dyadic {
    Dyadic { mant: SNAP_FRACTION as int, exp: -54 }
}

/// How far an ideal position may move to an onset: two fifths of an ideal slice, rounded down.
pub open spec fn snap_reach(total: int, target: int) -> int {
    let reach = float::product(ideal_len(total, target), snap_fraction(), DOUBLE as int);
    float::at_most(float::whole_part(reach), usize::MAX as int)
}

/// Where the boundary of part `i` of `target` is put.
pub open spec fn boundary(onsets: Seq<usize>, samples: Seq<u32>, target: int, i: int) -> int {
    let ideal = ideal_position(i, samples.len() as int, target);
    at_zero_crossing(
        if onsets.len() >= 2 {
            at_onset(ideal, onsets, snap_reach(samples.len() as int, target))
        } else {
            ideal
        },
        samples,
    )
}

/// The boundaries of the first `n` parts, without those that do not lie after the one before.
pub open spec fn boundaries(
    onsets: Seq<usize>,
    samples: Seq<u32>,
    target: int,
    n: int,
) -> Seq<int>
    decreases n,
{
    if n <= 0 {
        Seq::empty()
    } else {
        let before = boundaries(onsets, samples, target, n - 1);
        let next = boundary(onsets, samples, target, n - 1);
        if before.len() == 0 || next > before.last() {
            before.push(next)
        } else {
            before
        }
    }
}

/// The boundaries with one at sample 0 before them, unless the first is there. Where there are
/// `target` of them already, it takes the place of the first.
pub open spec fn from_zero(bounds: Seq<int>, target: int) -> Seq<int> {
    if bounds.len() == 0 {
        seq![0int]
    } else if bounds[0] == 0 {
        bounds
    } else if bounds.len() < target {
        seq![0int] + bounds
    } else {
        bounds.update(0, 0)
    }
}

/// Where the slice that starts at boundary `i` ends.
pub open spec fn end_of(bounds: Seq<int>, total: int, i: int) -> int {
    if i + 1 < bounds.len() {
        bounds[i + 1]
    } else {
        total
    }
}

/// The slices that start at the first `n` boundaries, without the empty ones.
pub open spec fn slices_of(bounds: Seq<int>, total: int, n: int) -> Seq<Slice>
    decreases n,
{
    if n <= 0 {
        Seq::empty()
    } else {
        let before = slices_of(bounds, total, n - 1);
        let start = bounds[n - 1];
        let end = end_of(bounds, total, n - 1);
        if start < end {
            before.push(Slice { start: start as usize, end: end as usize })
        } else {
            before
        }
    }
}

/// The slices that `num_banks` banks are cut into.
pub open spec fn slices_made(onsets: Seq<usize>, samples: Seq<u32>, num_banks: int) -> Seq<Slice> {
    if samples.len() == 0 {
        Seq::empty()
    } else {
        let target = SLICES_PER_BANK * num_banks;
        let bounds = from_zero(boundaries(onsets, samples, target, target), target);
        slices_of(bounds, samples.len() as int, bounds.len() as int)
    }
}

proof fn lemma_ideal_position(i: int, total: int, target: int)
    requires
        0 <= i < target,
        total >= 0,
    ensures
        0 <= ideal_position(i, total, target) <= usize::MAX,
{
    let d = DOUBLE as int;
    let part = float::nearest(i, 1, d);
    let len = ideal_len(total, target);
    float::lemma_nearest_error(total, d);
    float::lemma_nearest_error(target, d);
    float::lemma_nearest_error(i, d);
    float::lemma_quotient_error(float::nearest(total, 1, d), float::nearest(target, 1, d), d);
    float::lemma_product_error(part, len, d);
    float::lemma_to_whole(float::product(part, len, d));
}

/// The end of the significands of double precision.
#[verifier::inline]
spec fn ends() -> real {
    9007199254740992int as real
}

/// One above it.
#[verifier::inline]
spec fn over() -> real {
    9007199254740993int as real
}

/// One below it.
#[verifier::inline]
spec fn under() -> real {
    9007199254740991int as real
}

/// How far the roundings take the start of a part from where it lies exactly: each errs by one part
/// in `DOUBLE`, all of them together by less than eight.
proof fn lemma_start_error(
    i: real,
    total: real,
    target: real,
    t: real,
    n: real,
    k: real,
    len: real,
    start: real,
)
    requires
        total >= 0 as real,
        i >= 0 as real,
        n >= 0 as real,
        k >= 0 as real,
        start >= 0 as real,
        t * ends() <= over() * total,
        n * ends() >= under() * target,
        k * ends() <= over() * i,
        (len * n) * ends() <= over() * t,
        start * ends() <= over() * (k * len),
    ensures
        (start * target) * (1125899906842624int as real) <= (i * total) * (
        1125899906842625int as real),
{
    let x = len * n;
    float::lemma_real_order(start * ends(), over() * (k * len), n);
    assert((start * ends()) * n == ends() * (start * n)) by (nonlinear_arith);
    assert((over() * (k * len)) * n == over() * (k * x)) by (nonlinear_arith)
        requires
            x == len * n,
    ;
    float::lemma_real_order(x * ends(), over() * t, k);
    assert((x * ends()) * k == ends() * (k * x)) by (nonlinear_arith);
    assert((over() * t) * k == over() * (t * k)) by (nonlinear_arith);
    float::lemma_real_order(t * ends(), over() * total, k);
    assert((t * ends()) * k == ends() * (t * k)) by (nonlinear_arith);
    assert((over() * total) * k == over() * (total * k)) by (nonlinear_arith);
    float::lemma_real_order(k * ends(), over() * i, total);
    assert((k * ends()) * total == ends() * (total * k)) by (nonlinear_arith);
    assert((over() * i) * total == over() * (i * total)) by (nonlinear_arith);
    float::lemma_real_order(under() * target, n * ends(), start);
    assert((under() * target) * start == under() * (start * target)) by (nonlinear_arith);
    assert((n * ends()) * start == ends() * (start * n)) by (nonlinear_arith);
    let a = start * n;
    let b = k * x;
    let c = t * k;
    let d = total * k;
    let e = i * total;
    let f = start * target;
    float::lemma_real_product_positive(i, total);
    assert(ends() * a <= over() * b);
    assert(ends() * b <= over() * c);
    assert(ends() * c <= over() * d);
    assert(ends() * d <= over() * e);
    assert(under() * f <= ends() * a);
}

/// No part starts beyond the end, unless there are so many samples and so many parts that the
/// roundings add up to a sample.
proof fn lemma_ideal_within(i: int, total: int, target: int)
    requires
        0 <= i < target,
        total > 0,
        total <= 0x1_0000_0000_0000 || target <= 0x1_0000_0000_0000,
    ensures
        0 <= ideal_position(i, total, target) <= total,
        float::to_whole(
            float::product(
                float::nearest(i, 1, DOUBLE as int),
                ideal_len(total, target),
                DOUBLE as int,
            ),
        ) <= total,
{
    let d = DOUBLE as int;
    let t = float::nearest(total, 1, d);
    let n = float::nearest(target, 1, d);
    let k = float::nearest(i, 1, d);
    let len = ideal_len(total, target);
    let start = float::product(k, len, d);
    float::lemma_nearest_error(total, d);
    float::lemma_nearest_error(target, d);
    float::lemma_nearest_error(i, d);
    float::lemma_quotient_error(t, n, d);
    float::lemma_product_error(k, len, d);
    float::lemma_value_positive(n);
    float::lemma_value_positive(k);
    float::lemma_value_positive(start);
    let (ir, tr, nr) = (i as real, total as real, target as real);
    lemma_start_error(ir, tr, nr, t.value(), n.value(), k.value(), len.value(), start.value());
    float::lemma_to_whole(start);
    let whole = float::to_whole(start);
    if whole > total {
        let s = start.value();
        let r = (2 * whole - 1) as real;
        float::lemma_real_order(r, 2 as real * s, nr);
        assert((2 as real * s) * nr == 2 as real * (s * nr)) by (nonlinear_arith);
        let least = 2 as real * tr + 1 as real;
        float::lemma_real_order(least, r, nr);
        assert(least * nr == 2 as real * (tr * nr) + nr) by (nonlinear_arith)
            requires
                least == 2 as real * tr + 1 as real,
        ;
        let last = nr - 1 as real;
        float::lemma_real_order(ir, last, tr);
        assert(last * tr == tr * nr - tr) by (nonlinear_arith)
            requires
                last == nr - 1 as real,
        ;
        let many = 281474976710656int as real;
        if total <= 0x1_0000_0000_0000 {
            float::lemma_real_order(tr, many, nr);
            assert(tr * nr <= (281474976710656int as real) * nr);
        } else {
            float::lemma_real_order(nr, many, tr);
            assert(nr * tr == tr * nr) by (nonlinear_arith);
            assert(tr * nr <= (281474976710656int as real) * tr);
        }
        assert(false);
    }
}

/// The length of an ideal slice.
fn compute_len(total: usize, target: usize) -> (len: Binary)
    requires
        target > 0,
    ensures
        len@ == ideal_len(total as int, target as int),
        len@.normal(DOUBLE as int, -200, 200),
{
    let whole = float::from_whole(total as u128, DOUBLE);
    let parts = float::from_whole(target as u128, DOUBLE);
    float::divide(whole, parts, DOUBLE)
}

/// The ideal position of part `i`.
fn compute_ideal(i: usize, len: Binary) -> (p: usize)
    requires
        len@.normal(DOUBLE as int, -200, 200),
    ensures
        forall|total: int, target: int|
            len@ == #[trigger] ideal_len(total, target) ==> p == ideal_position(
                i as int,
                total,
                target,
            ),
{
    float::nearest_whole(float::multiply(float::from_whole(i as u128, DOUBLE), len, DOUBLE))
}

/// How far a position may move to an onset.
fn compute_reach(len: Binary) -> (reach: usize)
    requires
        len@.normal(DOUBLE as int, -200, 200),
    ensures
        forall|total: int, target: int|
            len@ == #[trigger] ideal_len(total, target) ==> reach == snap_reach(total, target),
{
    float::floor(float::multiply(len, Binary { mant: SNAP_FRACTION, exp: -54 }, DOUBLE))
}

proof fn lemma_boundary_small(onsets: Seq<usize>, samples: Seq<u32>, target: int, i: int)
    requires
        0 <= i < target,
        samples.len() <= usize::MAX,
    ensures
        0 <= boundary(onsets, samples, target, i) <= usize::MAX,
{
    let total = samples.len() as int;
    lemma_ideal_position(i, total, target);
    let ideal = ideal_position(i, total, target);
    if onsets.len() > 0 {
        lemma_nearest_member(ideal, onsets);
    }
    let pos = if onsets.len() >= 2 {
        at_onset(ideal, onsets, snap_reach(total, target))
    } else {
        ideal
    };
    assert(0 <= pos <= usize::MAX);
    lemma_at_zero_crossing(pos, samples);
}

proof fn lemma_at_zero_crossing(pos: int, samples: Seq<u32>)
    requires
        pos >= 0,
    ensures
        ({
            let p = at_zero_crossing(pos, samples);
            p == pos || after_crossing(samples, p)
        }),
{
    if pos > 0 {
        let lo = if pos > ZERO_CROSS_WINDOW {
            pos - ZERO_CROSS_WINDOW
        } else {
            0
        };
        lemma_crossing_before(samples, lo, pos);
        lemma_crossing_after(samples, pos, pos + ZERO_CROSS_WINDOW);
    }
}

/// The boundaries in a vector are those of the model.
spec fn same_bounds(v: Seq<usize>, bounds: Seq<int>) -> bool {
    v.map_values(|p: usize| p as int) == bounds
}

/// Build up to `num_banks` banks of slices of roughly equal length, snapping each
/// boundary to a nearby detected onset when one exists within tolerance,
/// then snapping to the nearest zero crossing to avoid clicks.
///
/// Samples are given by the bits of single-precision numbers.
pub fn make_slices(onsets: &[usize], samples: &[u32], num_banks: usize) -> (slices: Vec<Slice>)
    requires
        ascending(onsets@),
        SLICES_PER_BANK * num_banks <= usize::MAX,
    ensures
        slices@ == slices_made(onsets@, samples@, num_banks as int),
        num_banks >= 1 ==> slices@.len() <= SLICES_PER_BANK * num_banks,
        slices@.len() == 0 <==> samples@.len() == 0,
{
    let total_samples = samples.len();
    if total_samples == 0 {
        return Vec::new();
    }
    let target_count = SLICES_PER_BANK * num_banks;
    // Without parts there is no position to compute, and the length of a part is not used
    let len = compute_len(
        total_samples,
        if target_count > 0 {
            target_count
        } else {
            1
        },
    );
    let max_snap = compute_reach(len);
    let mut bounds: Vec<usize> = Vec::new();
    assert(bounds@.map_values(|p: usize| p as int) =~= Seq::<int>::empty());
    for i in 0..target_count
        invariant
            ascending(onsets@),
            total_samples == samples@.len(),
            len@.normal(DOUBLE as int, -200, 200),
            target_count > 0 ==> len@ == ideal_len(total_samples as int, target_count as int),
            target_count > 0 ==> max_snap == snap_reach(total_samples as int, target_count as int),
            same_bounds(bounds@, boundaries(onsets@, samples@, target_count as int, i as int)),
    {
        let ideal_pos = compute_ideal(i, len);
        let snapped = if onsets.len() >= 2 {
            snap_to_nearest_onset(ideal_pos, onsets, max_snap)
        } else {
            ideal_pos
        };
        let zero_crossed = snap_to_zero_crossing(snapped, samples);
        let ghost before = bounds@;
        let ghost model = boundaries(onsets@, samples@, target_count as int, i as int);
        assert(model.len() == before.len());
        // Only keep if strictly after the previous boundary
        if bounds.len() == 0 || zero_crossed > bounds[bounds.len() - 1] {
            bounds.push(zero_crossed);
            assert(bounds@.map_values(|p: usize| p as int) =~= model.push(zero_crossed as int));
        }
    }
    let ghost model = boundaries(onsets@, samples@, target_count as int, target_count as int);
    assert(model.len() == bounds@.len());
    // Always start from sample 0
    let ghost starts = from_zero(model, target_count as int);
    if bounds.len() == 0 {
        bounds.push(0);
    } else if bounds[0] != 0 {
        if bounds.len() < target_count {
            bounds.insert(0, 0);
        } else {
            // A bank has no room for another slice
            bounds.set(0, 0);
        }
    }
    assert(bounds@.map_values(|p: usize| p as int) =~= starts);
    assert(same_bounds(bounds@, starts));
    let n = bounds.len();
    let mut slices: Vec<Slice> = Vec::new();
    for i in 0..n
        invariant
            n == bounds@.len(),
            n == starts.len(),
            same_bounds(bounds@, starts),
            slices@ == slices_of(starts, total_samples as int, i as int),
    {
        let start = bounds[i];
        assert(starts[i as int] == bounds@[i as int]);
        let end = if i + 1 < n {
            assert(starts[i + 1] == bounds@[i + 1]);
            bounds[i + 1]
        } else {
            total_samples
        };
        if start < end {
            slices.push(Slice { start, end });
        }
    }
    proof {
        lemma_slices_contiguous(onsets@, samples@, num_banks as int);
        if num_banks >= 1 {
            lemma_slices_fit_banks(onsets@, samples@, num_banks as int);
        }
    }
    slices
}

/// The boundaries ascend strictly.
proof fn lemma_boundaries_ascend(onsets: Seq<usize>, samples: Seq<u32>, target: int, n: int)
    requires
        samples.len() <= usize::MAX,
        n <= target,
    ensures
        ({
            let b = boundaries(onsets, samples, target, n);
            &&& b.len() <= (if n > 0 {
                n
            } else {
                0
            })
            &&& n > 0 ==> b.len() > 0
            &&& forall|i: int| 0 <= i < b.len() ==> 0 <= #[trigger] b[i] <= usize::MAX
            &&& forall|i: int, j: int| 0 <= i < j < b.len() ==> b[i] < b[j]
        }),
    decreases n,
{
    if n > 0 {
        lemma_boundaries_ascend(onsets, samples, target, n - 1);
        lemma_boundary_small(onsets, samples, target, n - 1);
    }
}

proof fn lemma_starts(onsets: Seq<usize>, samples: Seq<u32>, num_banks: int)
    requires
        samples.len() <= usize::MAX,
        num_banks >= 0,
    ensures
        ({
            let target = SLICES_PER_BANK * num_banks;
            let b = from_zero(boundaries(onsets, samples, target, target), target);
            &&& 0 < b.len() <= (if target > 0 {
                target
            } else {
                1
            })
            &&& b[0] == 0
            &&& forall|i: int| 0 <= i < b.len() ==> 0 <= #[trigger] b[i] <= usize::MAX
            &&& forall|i: int, j: int| 0 <= i < j < b.len() ==> b[i] < b[j]
        }),
{
    let target = SLICES_PER_BANK * num_banks;
    lemma_boundaries_ascend(onsets, samples, target, target);
    let raw = boundaries(onsets, samples, target, target);
    let b = from_zero(raw, target);
    let shift: int = if b.len() > raw.len() {
        1
    } else {
        0
    };
    assert(forall|i: int| 0 < i < b.len() ==> #[trigger] b[i] == raw[i - shift]);
    assert forall|i: int, j: int| 0 <= i < j < b.len() implies b[i] < b[j] by {
        if raw.len() > 0 {
            assert(0 <= raw[0]);
            assert(b[j] == raw[j - shift]);
            if i > 0 {
                assert(b[i] == raw[i - shift]);
            }
        }
    }
}

/// With strictly ascending boundaries only the last slice can be empty.
proof fn lemma_slices_of(bounds: Seq<int>, total: int, n: int)
    requires
        0 <= n <= bounds.len(),
        0 <= total <= usize::MAX,
        forall|i: int| 0 <= i < bounds.len() ==> 0 <= #[trigger] bounds[i] <= usize::MAX,
        forall|i: int, j: int| 0 <= i < j < bounds.len() ==> bounds[i] < bounds[j],
    ensures
        ({
            let s = slices_of(bounds, total, n);
            &&& s.len() == n || (n == bounds.len() && s.len() == n - 1 && bounds.last() >= total)
            &&& forall|i: int|
                0 <= i < s.len() ==> (#[trigger] s[i]).start == bounds[i] && s[i].end == end_of(
                    bounds,
                    total,
                    i,
                ) && s[i].start < s[i].end
        }),
    decreases n,
{
    if n > 0 {
        lemma_slices_of(bounds, total, n - 1);
    }
}

/// The slices begin at sample 0, none is empty, and each begins where the one before ends.
pub proof fn lemma_slices_contiguous(onsets: Seq<usize>, samples: Seq<u32>, num_banks: int)
    requires
        0 < samples.len() <= usize::MAX,
        num_banks >= 0,
    ensures
        ({
            let s = slices_made(onsets, samples, num_banks);
            &&& s.len() > 0
            &&& s[0].start == 0
            &&& forall|i: int| 0 <= i < s.len() ==> (#[trigger] s[i]).start < s[i].end
            &&& forall|i: int|
                #![trigger s[i]]
                0 <= i < s.len() - 1 ==> s[i].end == s[i + 1].start
        }),
{
    let total = samples.len() as int;
    let target = SLICES_PER_BANK * num_banks;
    let b = from_zero(boundaries(onsets, samples, target, target), target);
    lemma_starts(onsets, samples, num_banks);
    lemma_slices_of(b, total, b.len() as int);
    let s = slices_made(onsets, samples, num_banks);
    if s.len() == 0 {
        assert(b.last() == b[0]);
    }
    assert forall|i: int| #![trigger s[i]] 0 <= i < s.len() - 1 implies s[i].end == s[i
        + 1].start by {
        assert(s[i + 1].start == b[i + 1]);
    }
}

/// Where every onset lies within the audio, the slices cover it to its end and not beyond. Only
/// with more samples and more banks than any memory holds do the roundings of double precision add
/// up to a sample.
pub proof fn lemma_slices_cover(onsets: Seq<usize>, samples: Seq<u32>, num_banks: int)
    requires
        0 < samples.len() <= usize::MAX,
        num_banks >= 0,
        samples.len() <= 0x1_0000_0000_0000 || num_banks <= 0x1000_0000_0000,
        forall|i: int| 0 <= i < onsets.len() ==> #[trigger] onsets[i] <= samples.len(),
    ensures
        ({
            let s = slices_made(onsets, samples, num_banks);
            &&& s.len() > 0
            &&& s.last().end == samples.len()
            &&& forall|i: int| 0 <= i < s.len() ==> (#[trigger] s[i]).end <= samples.len()
        }),
{
    let total = samples.len() as int;
    let target = SLICES_PER_BANK * num_banks;
    let raw = boundaries(onsets, samples, target, target);
    let b = from_zero(raw, target);
    lemma_starts(onsets, samples, num_banks);
    lemma_slices_contiguous(onsets, samples, num_banks);
    lemma_slices_of(b, total, b.len() as int);
    lemma_boundaries_within(onsets, samples, target, target);
    let s = slices_made(onsets, samples, num_banks);
    assert forall|i: int| 0 <= i < b.len() implies #[trigger] b[i] <= total by {
        if i > 0 {
            assert(b[i] == raw[i] || b[i] == raw[i - 1]);
        }
    }
    assert forall|i: int| 0 <= i < s.len() implies (#[trigger] s[i]).end <= samples.len() by {
        assert(s[i].start == b[i]);
        if i + 1 < b.len() {
            assert(b[i + 1] <= total);
        }
    }
    assert(s.last() == s[s.len() - 1]);
    if s.len() < b.len() {
        assert(b[b.len() - 1] <= total);
    }
}

proof fn lemma_boundaries_within(onsets: Seq<usize>, samples: Seq<u32>, target: int, n: int)
    requires
        0 < samples.len() <= usize::MAX,
        samples.len() <= 0x1_0000_0000_0000 || target <= 0x1_0000_0000_0000,
        n <= target,
        forall|i: int| 0 <= i < onsets.len() ==> #[trigger] onsets[i] <= samples.len(),
    ensures
        forall|i: int|
            0 <= i < boundaries(onsets, samples, target, n).len() ==> #[trigger] boundaries(
                onsets,
                samples,
                target,
                n,
            )[i] <= samples.len(),
    decreases n,
{
    if n > 0 {
        lemma_boundaries_within(onsets, samples, target, n - 1);
        let total = samples.len() as int;
        lemma_ideal_within(n - 1, total, target);
        let ideal = ideal_position(n - 1, total, target);
        if onsets.len() > 0 {
            lemma_nearest_member(ideal, onsets);
        }
        let pos = if onsets.len() >= 2 {
            at_onset(ideal, onsets, snap_reach(total, target))
        } else {
            ideal
        };
        lemma_at_zero_crossing(pos, samples);
        let before = boundaries(onsets, samples, target, n - 1);
        let b = boundaries(onsets, samples, target, n);
        assert(boundary(onsets, samples, target, n - 1) <= samples.len());
        assert forall|i: int| 0 <= i < b.len() implies #[trigger] b[i] <= samples.len() by {
            if i < before.len() {
                assert(b[i] == before[i]);
            }
        }
    }
}

/// There are at most sixteen slices to a bank.
pub proof fn lemma_slices_fit_banks(onsets: Seq<usize>, samples: Seq<u32>, num_banks: int)
    requires
        0 < samples.len() <= usize::MAX,
        num_banks >= 1,
    ensures
        slices_made(onsets, samples, num_banks).len() <= SLICES_PER_BANK * num_banks,
{
    let total = samples.len() as int;
    let target = SLICES_PER_BANK * num_banks;
    let b = from_zero(boundaries(onsets, samples, target, target), target);
    lemma_starts(onsets, samples, num_banks);
    lemma_slices_of(b, total, b.len() as int);
}

/// Two samples are on different sides of zero, the later one not on zero itself: above it where the
/// earlier is not, or below it where the earlier is not. Numbers from `0x8000_0000` on have the sign
/// bit, and what is beyond an infinity is no number.
pub proof fn lemma_crossings_by_sign(a: u32, b: u32)
    ensures
        crosses_zero(a, b) == ({
            let above = |x: u32| 0 < x <= 0x7F80_0000;
            let below = |x: u32| 0x8000_0000 < x <= 0xFF80_0000;
            let zero = |x: u32| x == 0 || x == 0x8000_0000;
            ||| above(b) && (zero(a) || below(a))
            ||| below(b) && (zero(a) || above(a))
        }),
{
}

proof fn lemma_no_later_crossing(samples: Seq<u32>, lo: int, hi: int)
    ensures
        match crossing_before(samples, lo, hi) {
            Some(p) => forall|c: int| p < c <= hi ==> !#[trigger] after_crossing(samples, c),
            None => forall|c: int| lo < c <= hi ==> !#[trigger] after_crossing(samples, c),
        },
    decreases hi - lo,
{
    if hi > lo && !after_crossing(samples, hi) {
        lemma_no_later_crossing(samples, lo, hi - 1);
    }
}

proof fn lemma_no_earlier_crossing(samples: Seq<u32>, lo: int, hi: int)
    ensures
        match crossing_after(samples, lo, hi) {
            Some(p) => forall|c: int| lo < c < p ==> !#[trigger] after_crossing(samples, c),
            None => forall|c: int| lo < c <= hi ==> !#[trigger] after_crossing(samples, c),
        },
    decreases hi - lo,
{
    if hi > lo && !after_crossing(samples, lo + 1) {
        lemma_no_earlier_crossing(samples, lo + 1, hi);
    }
}

/// `r` is the first sample behind the zero crossing nearest to `pos`, the earlier one where two are
/// as near, or `pos` where there is none within 64 samples.
pub open spec fn at_nearest_crossing(samples: Seq<u32>, pos: int, r: int) -> bool {
    &&& -64 < r - pos <= 64
    &&& r == pos || (0 < r < samples.len() && crosses_zero(samples[r - 1], samples[r]))
    &&& forall|c: int|
        #![trigger samples[c]]
        0 < c < samples.len() && crosses_zero(samples[c - 1], samples[c]) && -64 < c - pos <= 64 ==> {
            &&& 0 < r < samples.len() && crosses_zero(samples[r - 1], samples[r])
            &&& distance(r, pos) <= distance(c, pos)
            &&& c < r ==> distance(r, pos) < distance(c, pos)
        }
}

/// A position moves to the nearest zero crossing within 64 samples, and stays where there is none;
/// the very first sample stays.
pub proof fn lemma_moves_to_nearest_crossing(pos: int, samples: Seq<u32>)
    requires
        0 <= pos,
    ensures
        pos > 0 ==> at_nearest_crossing(samples, pos, at_zero_crossing(pos, samples)),
        pos == 0 ==> at_zero_crossing(pos, samples) == 0,
{
    if pos > 0 && samples.len() > 0 {
        let lo = if pos > ZERO_CROSS_WINDOW {
            pos - ZERO_CROSS_WINDOW
        } else {
            0
        };
        let hi = pos + ZERO_CROSS_WINDOW;
        lemma_crossing_before(samples, lo, pos);
        lemma_crossing_after(samples, pos, hi);
        lemma_no_later_crossing(samples, lo, pos);
        lemma_no_earlier_crossing(samples, pos, hi);
        let r = at_zero_crossing(pos, samples);
        assert forall|c: int|
            #![trigger samples[c]]
            0 < c < samples.len() && crosses_zero(samples[c - 1], samples[c]) && -64 < c - pos
                <= 64 implies {
            &&& 0 < r < samples.len() && crosses_zero(samples[r - 1], samples[r])
            &&& distance(r, pos) <= distance(c, pos)
            &&& c < r ==> distance(r, pos) < distance(c, pos)
        } by {
            assert(after_crossing(samples, c));
        }
    }
}

/// An onset within reach of a position draws it: the nearest one, the earlier where two are as near.
/// Where every onset is out of reach the position stays.
pub proof fn lemma_nearest_onset_draws(pos: int, onsets: Seq<usize>, reach: int, j: int)
    requires
        ascending(onsets),
        0 <= reach,
        0 <= j < onsets.len(),
    ensures
        ({
            let r = at_onset(pos, onsets, reach);
            &&& distance(onsets[j] as int, pos) <= reach ==> {
                &&& exists|k: int| 0 <= k < onsets.len() && r == #[trigger] onsets[k]
                &&& distance(r, pos) <= distance(onsets[j] as int, pos)
                &&& onsets[j] < r ==> distance(r, pos) < distance(onsets[j] as int, pos)
            }
            &&& (forall|k: int|
                0 <= k < onsets.len() ==> distance(#[trigger] onsets[k] as int, pos) > reach) ==> r
                == pos
        }),
{
    lemma_nearest_member(pos, onsets);
    lemma_nearest_least(pos, onsets);
    lemma_nearest_earliest(pos, onsets, j);
}

proof fn lemma_nearest_earliest(pos: int, onsets: Seq<usize>, j: int)
    requires
        ascending(onsets),
        0 <= j < onsets.len(),
    ensures
        onsets[j] < nearest(pos, onsets) ==> distance(nearest(pos, onsets), pos) < distance(
            onsets[j] as int,
            pos,
        ),
    decreases onsets.len(),
{
    if onsets.len() > 1 {
        let init = onsets.drop_last();
        assert forall|i: int| 0 <= i < init.len() implies init[i] == onsets[i] by {}
        lemma_nearest_member(pos, init);
        lemma_nearest_least(pos, init);
        if j < init.len() {
            lemma_nearest_earliest(pos, init, j);
            assert(distance(nearest(pos, init), pos) <= distance(init[j] as int, pos));
        }
    }
}

/// The boundary of a part lies beyond those of all parts before it.
pub open spec fn leads(onsets: Seq<usize>, samples: Seq<u32>, target: int, i: int) -> bool {
    forall|j: int|
        0 <= j < i ==> #[trigger] boundary(onsets, samples, target, j) < boundary(
            onsets,
            samples,
            target,
            i,
        )
}

/// What is kept of the boundaries: those that lead, and no others.
proof fn lemma_leading_are_kept(onsets: Seq<usize>, samples: Seq<u32>, target: int, n: int)
    requires
        0 <= n,
    ensures
        ({
            let b = boundaries(onsets, samples, target, n);
            &&& n > 0 ==> b.len() > 0
            &&& b.len() <= n
            &&& forall|j: int|
                0 <= j < n ==> #[trigger] boundary(onsets, samples, target, j) <= b.last()
            &&& forall|k: int|
                0 <= k < b.len() ==> exists|j: int|
                    0 <= j < n && #[trigger] b[k] == #[trigger] boundary(onsets, samples, target, j)
            &&& forall|i: int|
                0 <= i < n && #[trigger] leads(onsets, samples, target, i) ==> b.contains(
                    boundary(onsets, samples, target, i),
                )
            &&& forall|i: int|
                0 <= i < n && !#[trigger] leads(onsets, samples, target, i) ==> b.len() < n
            &&& n > 0 ==> b[0] == boundary(onsets, samples, target, 0)
        }),
    decreases n,
{
    if n > 0 {
        lemma_leading_are_kept(onsets, samples, target, n - 1);
        let before = boundaries(onsets, samples, target, n - 1);
        let b = boundaries(onsets, samples, target, n);
        let next = boundary(onsets, samples, target, n - 1);
        let kept = before.len() == 0 || next > before.last();
        assert(kept == leads(onsets, samples, target, n - 1)) by {
            if kept {
                assert forall|j: int| 0 <= j < n - 1 implies #[trigger] boundary(
                    onsets,
                    samples,
                    target,
                    j,
                ) < next by {}
            } else {
                let j = choose|j: int|
                    0 <= j < n - 1 && before[before.len() - 1] == #[trigger] boundary(
                        onsets,
                        samples,
                        target,
                        j,
                    );
                assert(before[before.len() - 1] == before.last());
                assert(boundary(onsets, samples, target, j) >= next);
            }
        }
        assert forall|k: int| 0 <= k < b.len() implies exists|j: int|
            0 <= j < n && #[trigger] b[k] == #[trigger] boundary(onsets, samples, target, j) by {
            if k < before.len() {
                assert(b[k] == before[k]);
                let j = choose|j: int|
                    0 <= j < n - 1 && before[k] == #[trigger] boundary(onsets, samples, target, j);
                assert(0 <= j < n && b[k] == boundary(onsets, samples, target, j));
            } else {
                assert(b[k] == boundary(onsets, samples, target, n - 1));
            }
        }
        assert forall|i: int|
            0 <= i < n && #[trigger] leads(onsets, samples, target, i) implies b.contains(
            boundary(onsets, samples, target, i),
        ) by {
            let x = boundary(onsets, samples, target, i);
            if i < n - 1 {
                let k = choose|k: int| 0 <= k < before.len() && before[k] == x;
                assert(b[k] == x);
            } else {
                assert(b[b.len() - 1] == x);
            }
        }
    }
}

/// Every slice but the first starts at the boundary of a part; and the boundary of a part that leads
/// starts a slice, unless it lies at the end. Only the boundary of the first part may give way to
/// sample 0, where all the others have to be kept as well.
pub proof fn lemma_slices_start_at_boundaries(
    onsets: Seq<usize>,
    samples: Seq<u32>,
    num_banks: int,
    i: int,
)
    requires
        0 < samples.len() <= usize::MAX,
        num_banks >= 1,
        0 <= i < 16 * num_banks,
    ensures
        ({
            let s = slices_made(onsets, samples, num_banks);
            let target = 16 * num_banks;
            let at = boundary(onsets, samples, target, i);
            &&& forall|k: int|
                1 <= k < s.len() ==> exists|j: int|
                    0 <= j < target && (#[trigger] s[k]).start == #[trigger] boundary(
                        onsets,
                        samples,
                        target,
                        j,
                    )
            &&& leads(onsets, samples, target, i) && at < samples.len() && (i > 0 || at == 0 || exists|
                j: int,
            |
                0 <= j < target && !#[trigger] leads(onsets, samples, target, j)) ==> exists|k: int|
                0 <= k < s.len() && (#[trigger] s[k]).start == at
        }),
{
    let total = samples.len() as int;
    let target = 16 * num_banks;
    let raw = boundaries(onsets, samples, target, target);
    let b = from_zero(raw, target);
    let s = slices_made(onsets, samples, num_banks);
    assert(target == SLICES_PER_BANK * num_banks);
    lemma_starts(onsets, samples, num_banks);
    lemma_slices_of(b, total, b.len() as int);
    lemma_leading_are_kept(onsets, samples, target, target);
    let shift: int = if b.len() > raw.len() {
        1
    } else {
        0
    };
    assert forall|k: int| 1 <= k < s.len() implies exists|j: int|
        0 <= j < target && (#[trigger] s[k]).start == #[trigger] boundary(
            onsets,
            samples,
            target,
            j,
        ) by {
        assert(s[k].start == b[k]);
        assert(b[k] == raw[k - shift]);
        let j = choose|j: int|
            0 <= j < target && raw[k - shift] == #[trigger] boundary(onsets, samples, target, j);
        assert(s[k].start == boundary(onsets, samples, target, j));
    }
    let at = boundary(onsets, samples, target, i);
    if leads(onsets, samples, target, i) && at < samples.len() && (i > 0 || at == 0 || exists|
        j: int,
    |
        0 <= j < target && !#[trigger] leads(onsets, samples, target, j)) {
        let k = choose|k: int| 0 <= k < raw.len() && raw[k] == at;
        if i == 0 && at != 0 {
            assert(raw.len() < target);
        }
        if i > 0 {
            assert(boundary(onsets, samples, target, 0) < at);
            assert(k > 0);
        }
        let m = k + shift;
        assert(b[m] == at);
        if m >= s.len() {
            assert(b.last() == b[b.len() - 1]);
            assert(m == b.len() - 1);
            assert(b.last() >= total);
        }
        assert(s[m].start == at);
    }
}

/// `at` is where a boundary belongs whose ideal place is `ideal`: at the onset nearest to it, the
/// earlier where two are as near, where one is within `reach`, else at the ideal place itself, and from there at the nearest zero crossing.
pub open spec fn belongs(
    onsets: Seq<usize>,
    samples: Seq<u32>,
    ideal: int,
    reach: int,
    drawn: int,
    at: int,
) -> bool {
    &&& (exists|k: int|
        0 <= k < onsets.len() && distance(#[trigger] onsets[k] as int, ideal) <= reach)
        && onsets.len() >= 2 ==> {
        &&& exists|k: int| 0 <= k < onsets.len() && drawn == #[trigger] onsets[k]
        &&& forall|k: int|
            0 <= k < onsets.len() ==> distance(drawn, ideal) <= distance(
                #[trigger] onsets[k] as int,
                ideal,
            ) && (onsets[k] < drawn ==> distance(drawn, ideal) < distance(onsets[k] as int, ideal))
    }
    &&& onsets.len() < 2 || !(exists|k: int|
        0 <= k < onsets.len() && distance(#[trigger] onsets[k] as int, ideal) <= reach) ==> drawn
        == ideal
    &&& drawn > 0 ==> at_nearest_crossing(samples, drawn, at)
    &&& drawn == 0 ==> at == 0
}

/// With any number of banks, the boundary of a part is drawn to the nearest onset within two fifths
/// of a part from its ideal place, and from there to the nearest zero crossing.
pub proof fn lemma_boundaries_are_drawn(
    onsets: Seq<usize>,
    samples: Seq<u32>,
    target: int,
    i: int,
)
    requires
        ascending(onsets),
        0 <= i < target,
        samples.len() <= usize::MAX,
    ensures
        exists|drawn: int| #[trigger]
            belongs(
                onsets,
                samples,
                ideal_position(i, samples.len() as int, target),
                snap_reach(samples.len() as int, target),
                drawn,
                boundary(onsets, samples, target, i),
            ),
{
    let total = samples.len() as int;
    let ideal = ideal_position(i, total, target);
    let reach = snap_reach(total, target);
    lemma_ideal_position(i, total, target);
    lemma_reach_positive(total, target);
    let drawn = if onsets.len() >= 2 {
        at_onset(ideal, onsets, reach)
    } else {
        ideal
    };
    if onsets.len() >= 2 {
        lemma_nearest_member(ideal, onsets);
        lemma_nearest_least(ideal, onsets);
        if exists|k: int| 0 <= k < onsets.len() && distance(#[trigger] onsets[k] as int, ideal) <= reach {
            let k = choose|k: int|
                0 <= k < onsets.len() && distance(#[trigger] onsets[k] as int, ideal) <= reach;
            assert(distance(nearest(ideal, onsets), ideal) <= distance(onsets[k] as int, ideal));
            assert forall|j: int| 0 <= j < onsets.len() implies distance(drawn, ideal) <= distance(
                #[trigger] onsets[j] as int,
                ideal,
            ) && (onsets[j] < drawn ==> distance(drawn, ideal) < distance(onsets[j] as int, ideal)) by {
                lemma_nearest_earliest(ideal, onsets, j);
            }
        }
    }
    lemma_moves_to_nearest_crossing(drawn, samples);
    assert(belongs(onsets, samples, ideal, reach, drawn, boundary(onsets, samples, target, i)));
}

proof fn lemma_reach_positive(total: int, target: int)
    requires
        total >= 0,
        target >= 1,
    ensures
        0 <= snap_reach(total, target),
{
    let d = DOUBLE as int;
    let len = ideal_len(total, target);
    float::lemma_nearest_error(total, d);
    float::lemma_nearest_error(target, d);
    float::lemma_quotient_error(float::nearest(total, 1, d), float::nearest(target, 1, d), d);
    float::lemma_product_error(len, snap_fraction(), d);
    float::lemma_whole_part(float::product(len, snap_fraction(), d));
}

/// How far the roundings take the start of a part back from where it lies exactly.
proof fn lemma_start_error_below(
    i: real,
    total: real,
    target: real,
    t: real,
    n: real,
    k: real,
    len: real,
    start: real,
)
    requires
        total >= 0 as real,
        i >= 0 as real,
        n >= 0 as real,
        k >= 0 as real,
        start >= 0 as real,
        t * ends() >= under() * total,
        n * ends() <= over() * target,
        k * ends() >= under() * i,
        (len * n) * ends() >= under() * t,
        start * ends() >= under() * (k * len),
    ensures
        (start * target) * (1125899906842624int as real) >= (i * total) * (
        1125899906842623int as real),
{
    let x = len * n;
    float::lemma_real_order(under() * (k * len), start * ends(), n);
    assert((start * ends()) * n == ends() * (start * n)) by (nonlinear_arith);
    assert((under() * (k * len)) * n == under() * (k * x)) by (nonlinear_arith)
        requires
            x == len * n,
    ;
    float::lemma_real_order(under() * t, x * ends(), k);
    assert((x * ends()) * k == ends() * (k * x)) by (nonlinear_arith);
    assert((under() * t) * k == under() * (t * k)) by (nonlinear_arith);
    float::lemma_real_order(under() * total, t * ends(), k);
    assert((t * ends()) * k == ends() * (t * k)) by (nonlinear_arith);
    assert((under() * total) * k == under() * (total * k)) by (nonlinear_arith);
    float::lemma_real_order(under() * i, k * ends(), total);
    assert((k * ends()) * total == ends() * (total * k)) by (nonlinear_arith);
    assert((under() * i) * total == under() * (i * total)) by (nonlinear_arith);
    float::lemma_real_order(n * ends(), over() * target, start);
    assert((over() * target) * start == over() * (start * target)) by (nonlinear_arith);
    assert((n * ends()) * start == ends() * (start * n)) by (nonlinear_arith);
    let a = start * n;
    let b = k * x;
    let c = t * k;
    let d = total * k;
    let e = i * total;
    let f = start * target;
    float::lemma_real_product_positive(i, total);
    assert(ends() * a >= under() * b);
    assert(ends() * b >= under() * c);
    assert(ends() * c >= under() * d);
    assert(ends() * d >= under() * e);
    assert(over() * f >= ends() * a);
}

/// The ideal place of a part is less than one sample from where the part of that number would start
/// if the audio were cut into equal parts.
pub proof fn lemma_ideal_is_an_equal_part(i: int, total: int, target: int)
    requires
        0 <= i < target,
        0 < total <= 0x1_0000_0000_0000,
        total <= usize::MAX,
    ensures
        -target < ideal_position(i, total, target) * target - i * total < target,
{
    let d = DOUBLE as int;
    let t = float::nearest(total, 1, d);
    let n = float::nearest(target, 1, d);
    let k = float::nearest(i, 1, d);
    let len = ideal_len(total, target);
    let start = float::product(k, len, d);
    float::lemma_nearest_error(total, d);
    float::lemma_nearest_error(target, d);
    float::lemma_nearest_error(i, d);
    float::lemma_quotient_error(t, n, d);
    float::lemma_product_error(k, len, d);
    float::lemma_quotient_error_below(t, n, d);
    float::lemma_product_error_below(k, len, d);
    float::lemma_value_positive(n);
    float::lemma_value_positive(k);
    float::lemma_value_positive(start);
    let (ir, tr, nr) = (i as real, total as real, target as real);
    lemma_start_error(ir, tr, nr, t.value(), n.value(), k.value(), len.value(), start.value());
    lemma_start_error_below(ir, tr, nr, t.value(), n.value(), k.value(), len.value(), start.value());
    float::lemma_to_whole(start);
    float::lemma_to_whole_above(start);
    lemma_ideal_within(i, total, target);
    let whole = ideal_position(i, total, target);
    assert(whole == float::to_whole(start));
    let s = start.value();
    let w = whole as real;
    float::lemma_real_order(2 as real * w - 1 as real, 2 as real * s, nr);
    float::lemma_real_order(2 as real * s, 2 as real * w + 1 as real, nr);
    assert((2 as real * s) * nr == 2 as real * (s * nr)) by (nonlinear_arith);
    assert((2 as real * w - 1 as real) * nr == 2 as real * (w * nr) - nr) by (nonlinear_arith);
    assert((2 as real * w + 1 as real) * nr == 2 as real * (w * nr) + nr) by (nonlinear_arith);
    // The roundings add up to less than a quarter of a sample
    float::lemma_real_order(tr, 281474976710656int as real, ir);
    assert(tr * ir == ir * tr) by (nonlinear_arith);
    assert(ir * tr <= (281474976710656int as real) * ir);
    assert(2 as real * (w * nr) - nr <= 2 as real * (s * nr));
    assert(4 as real * (s * nr) <= 4 as real * (ir * tr) + nr);
    assert(4 as real * (s * nr) >= 4 as real * (ir * tr) - nr);
    float::lemma_real_product(whole, target);
    float::lemma_real_product(i, total);
    assert((whole * target) as real == w * nr);
    assert((i * total) as real == ir * tr);
    assert(w * nr < ir * tr + nr);
    assert(w * nr > ir * tr - nr);
}

/// An onset within two fifths of an equal part, rounded down, is within reach, and no other.
pub proof fn lemma_reach_is_two_fifths(total: int, target: int)
    requires
        target >= 1,
        0 < total <= 0x1_0000_0000_0000,
        total <= usize::MAX,
    ensures
        5 * (snap_reach(total, target) * target) <= 2 * total,
        2 * total <= 5 * ((snap_reach(total, target) + 1) * target),
{
    let d = DOUBLE as int;
    let t = float::nearest(total, 1, d);
    let n = float::nearest(target, 1, d);
    let len = ideal_len(total, target);
    let far = float::product(len, snap_fraction(), d);
    float::lemma_nearest_error(total, d);
    float::lemma_nearest_error(target, d);
    float::lemma_quotient_error(t, n, d);
    float::lemma_quotient_error_below(t, n, d);
    float::lemma_product_error(len, snap_fraction(), d);
    float::lemma_product_error_below(len, snap_fraction(), d);
    float::lemma_value_positive(len);
    float::lemma_whole_part(far);
    float::lemma_whole_part_above(far);
    lemma_fraction_value();
    let phi = snap_fraction().value();
    let (tr, nr) = (total as real, target as real);
    let (l, nv) = (len.value(), n.value());
    let r = far.value();
    // The length of a part, times the number of parts
    let x = l * nr;
    float::lemma_real_order(under() * nr, nv * ends(), l);
    float::lemma_real_order(nv * ends(), over() * nr, l);
    assert((under() * nr) * l == under() * (l * nr)) by (nonlinear_arith);
    assert((over() * nr) * l == over() * (l * nr)) by (nonlinear_arith);
    assert((nv * ends()) * l == ends() * (l * nv)) by (nonlinear_arith);
    let y = l * nv;
    assert(ends() * y <= over() * t.value());
    assert(ends() * y >= under() * t.value());
    assert(under() * x <= ends() * y);
    assert(over() * x >= ends() * y);
    // The reach, times the number of parts
    let z = r * nr;
    let lp = l * phi;
    float::lemma_real_order(r * ends(), over() * lp, nr);
    float::lemma_real_order(under() * lp, r * ends(), nr);
    assert((r * ends()) * nr == ends() * (r * nr)) by (nonlinear_arith);
    assert((over() * lp) * nr == over() * (phi * x)) by (nonlinear_arith)
        requires
            lp == l * phi,
            x == l * nr,
    ;
    assert((under() * lp) * nr == under() * (phi * x)) by (nonlinear_arith)
        requires
            lp == l * phi,
            x == l * nr,
    ;
    let px = phi * x;
    assert((18014398509481984int as real) * px == (7205759403792794int as real) * x) by (nonlinear_arith)
        requires
            px == phi * x,
            (18014398509481984int as real) * phi == 7205759403792794int as real,
    ;
    assert(ends() * z <= over() * px);
    assert(ends() * z >= under() * px);
    let tv = t.value();
    assert(ends() * tv <= over() * tr);
    assert(ends() * tv >= under() * tr);
    assert(tr <= 281474976710656int as real);
    assert(5 as real * z < 2 as real * tr + 1 as real);
    assert(5 as real * z > 2 as real * tr - 1 as real);
    let whole = float::whole_part(far);
    let w = whole as real;
    float::lemma_real_order(w, r, nr);
    float::lemma_real_product(whole, target);
    assert(5 * (whole * target) <= 2 * total);
    assert(whole <= whole * target) by (nonlinear_arith)
        requires
            whole >= 0,
            target >= 1,
    ;
    assert(whole == snap_reach(total, target));
    float::lemma_real_order(r, (whole + 1) as real, nr);
    float::lemma_real_product(whole + 1, target);
}

proof fn lemma_fraction_value()
    ensures
        (18014398509481984int as real) * snap_fraction().value() == 7205759403792794int as real,
{
    vstd::arithmetic::power2::lemma2_to64_rest();
    let p = vstd::arithmetic::power2::pow2(54) as real;
    let m = 7205759403792794int as real;
    assert(p == 18014398509481984int as real);
    assert(p * (m * (1 as real / p)) == m) by (nonlinear_arith)
        requires
            p > 0 as real,
    {
        assert(p * (1 as real / p) == 1 as real);
    }
    assert(snap_fraction().value() == m * (1 as real / p));
}

/// Positions are as far apart as the one is before the other, whichever comes first.
pub proof fn lemma_distances(a: int, b: int)
    ensures
        a <= b ==> distance(a, b) == b - a,
        a >= b ==> distance(a, b) == a - b,
{
}

} // verus!
