//! Sorting a few numbers and taking the one in the middle.

use vstd::prelude::*;

verus! {

/// `s` with `x` put behind everything that is not greater.
pub open spec fn placed(s: Seq<int>, x: int) -> Seq<int>
    decreases s.len(),
{
    if s.len() == 0 || s.last() <= x {
        s.push(x)
    } else {
        placed(s.drop_last(), x).push(s.last())
    }
}

/// `s` in ascending order.
pub open spec fn sorted(s: Seq<int>) -> Seq<int>
    decreases s.len(),
{
    if s.len() == 0 {
        s
    } else {
        placed(sorted(s.drop_last()), s.last())
    }
}

/// The middle of `s` in ascending order, the upper one of two.
pub open spec fn median_of(s: Seq<int>) -> int {
    sorted(s)[s.len() as int / 2]
}

/// The numbers of a vector.
pub open spec fn numbers(v: Seq<i128>) -> Seq<int> {
    v.map_values(|x: i128| x as int)
}

proof fn lemma_placed_at(s: Seq<int>, x: int, p: int)
    requires
        0 <= p <= s.len(),
        forall|i: int| p <= i < s.len() ==> #[trigger] s[i] > x,
        p > 0 ==> s[p - 1] <= x,
    ensures
        placed(s, x) == s.insert(p, x),
    decreases s.len(),
{
    if p == s.len() {
        assert(s.insert(p, x) =~= s.push(x));
    } else {
        assert(s[s.len() - 1] > x);
        let init = s.drop_last();
        assert forall|i: int| p <= i < init.len() implies #[trigger] init[i] > x by {
            assert(s[i] > x);
        }
        lemma_placed_at(init, x, p);
        assert(init.insert(p, x).push(s.last()) =~= s.insert(p, x));
    }
}

fn place(v: &mut Vec<i128>, x: i128)
    ensures
        numbers(final(v)@) == placed(numbers(old(v)@), x as int),
{
    let mut p = v.len();
    while p > 0 && v[p - 1] > x
        invariant
            p <= v@.len(),
            forall|i: int| p <= i < v@.len() ==> #[trigger] v@[i] > x,
        decreases p,
    {
        p = p - 1;
    }
    let ghost before = numbers(v@);
    proof {
        assert forall|i: int| p <= i < before.len() implies #[trigger] before[i] > x by {
            assert(v@[i] > x);
        }
        lemma_placed_at(before, x as int, p as int);
    }
    v.insert(p, x);
    assert(numbers(v@) =~= before.insert(p as int, x as int));
}

/// The numbers of `v` in ascending order.
pub fn sort(v: &[i128]) -> (r: Vec<i128>)
    ensures
        numbers(r@) == sorted(numbers(v@)),
{
    let mut r: Vec<i128> = Vec::new();
    let n = v.len();
    let ghost all = numbers(v@);
    assert(numbers(r@) =~= sorted(all.take(0)));
    for i in 0..n
        invariant
            n == v@.len(),
            all == numbers(v@),
            numbers(r@) == sorted(all.take(i as int)),
    {
        place(&mut r, v[i]);
        assert(all.take(i + 1).drop_last() =~= all.take(i as int));
    }
    assert(all.take(n as int) =~= all);
    r
}

/// The middle of `v` in ascending order, the upper one of two.
pub fn median(v: &[i128]) -> (m: i128)
    requires
        v@.len() > 0,
    ensures
        m == median_of(numbers(v@)),
{
    let r = sort(v);
    proof {
        lemma_sorted(numbers(v@));
        assert(numbers(r@).len() == r@.len());
        assert(numbers(r@)[v@.len() as int / 2] == r@[v@.len() as int / 2]);
    }
    r[v.len() / 2]
}

/// Sorting keeps every number, with its count, and puts them in ascending order.
pub proof fn lemma_sorted(s: Seq<int>)
    ensures
        sorted(s).len() == s.len(),
        sorted(s).to_multiset() == s.to_multiset(),
        forall|i: int, j: int| 0 <= i <= j < s.len() ==> sorted(s)[i] <= sorted(s)[j],
    decreases s.len(),
{
    if s.len() > 0 {
        lemma_sorted(s.drop_last());
        lemma_placed(sorted(s.drop_last()), s.last());
        vstd::seq_lib::to_multiset_build(s.drop_last(), s.last());
        assert(s.drop_last().push(s.last()) =~= s);
    }
}

proof fn lemma_placed(s: Seq<int>, x: int)
    requires
        forall|i: int, j: int| 0 <= i <= j < s.len() ==> s[i] <= s[j],
    ensures
        placed(s, x).len() == s.len() + 1,
        placed(s, x).to_multiset() == s.to_multiset().insert(x),
        forall|i: int, j: int|
            0 <= i <= j < s.len() + 1 ==> placed(s, x)[i] <= placed(s, x)[j],
        placed(s, x).last() == (if s.len() == 0 || s.last() <= x {
            x
        } else {
            s.last()
        }),
    decreases s.len(),
{
    vstd::seq_lib::to_multiset_build(s, x);
    if !(s.len() == 0 || s.last() <= x) {
        let init = s.drop_last();
        lemma_placed(init, x);
        vstd::seq_lib::to_multiset_build(init, s.last());
        vstd::seq_lib::to_multiset_build(placed(init, x), s.last());
        assert(init.push(s.last()) =~= s);
        assert(placed(s, x).to_multiset() =~= s.to_multiset().insert(x));
        let p = placed(init, x);
        assert forall|i: int, j: int| 0 <= i <= j < s.len() + 1 implies placed(s, x)[i] <= placed(
            s,
            x,
        )[j] by {
            if j < p.len() {
                assert(p[i] <= p[j]);
            } else if i < p.len() {
                assert(p[i] <= p[p.len() - 1]);
                if init.len() > 0 {
                    assert(s[init.len() - 1] <= s[s.len() - 1]);
                }
            }
        }
    }
}

/// The median is one of the numbers; at most half of them are smaller and at most half greater.
pub proof fn lemma_median_splits(s: Seq<int>)
    requires
        s.len() > 0,
    ensures
        s.contains(median_of(s)),
        forall|i: int| 0 <= i <= s.len() as int / 2 ==> sorted(s)[i] <= median_of(s),
        forall|i: int| s.len() as int / 2 <= i < s.len() ==> median_of(s) <= sorted(s)[i],
{
    lemma_sorted(s);
    let m = s.len() as int / 2;
    vstd::seq_lib::to_multiset_contains(s, median_of(s));
    vstd::seq_lib::to_multiset_contains(sorted(s), median_of(s));
    assert(sorted(s).contains(sorted(s)[m]));
}

/// How many of the numbers are below `m`.
pub open spec fn below(s: Seq<int>, m: int) -> nat
    decreases s.len(),
{
    if s.len() == 0 {
        0
    } else {
        below(s.drop_last(), m) + if s.last() < m {
            1nat
        } else {
            0nat
        }
    }
}

/// How many of the numbers are above `m`.
pub open spec fn above(s: Seq<int>, m: int) -> nat
    decreases s.len(),
{
    if s.len() == 0 {
        0
    } else {
        above(s.drop_last(), m) + if s.last() > m {
            1nat
        } else {
            0nat
        }
    }
}

proof fn lemma_counts_pushed(s: Seq<int>, x: int, m: int)
    ensures
        below(s.push(x), m) == below(s, m) + if x < m {
            1nat
        } else {
            0nat
        },
        above(s.push(x), m) == above(s, m) + if x > m {
            1nat
        } else {
            0nat
        },
{
    assert(s.push(x).drop_last() =~= s);
}

proof fn lemma_counts_placed(s: Seq<int>, x: int, m: int)
    ensures
        below(placed(s, x), m) == below(s.push(x), m),
        above(placed(s, x), m) == above(s.push(x), m),
    decreases s.len(),
{
    lemma_counts_pushed(s, x, m);
    if !(s.len() == 0 || s.last() <= x) {
        let init = s.drop_last();
        lemma_counts_placed(init, x, m);
        lemma_counts_pushed(init, x, m);
        lemma_counts_pushed(placed(init, x), s.last(), m);
    }
}

proof fn lemma_counts_sorted(s: Seq<int>, m: int)
    ensures
        below(sorted(s), m) == below(s, m),
        above(sorted(s), m) == above(s, m),
    decreases s.len(),
{
    if s.len() > 0 {
        let init = s.drop_last();
        lemma_counts_sorted(init, m);
        lemma_counts_placed(sorted(init), s.last(), m);
        lemma_counts_pushed(sorted(init), s.last(), m);
    }
}

proof fn lemma_counts_bounded(s: Seq<int>, m: int, k: int)
    requires
        0 <= k,
    ensures
        (forall|i: int| k <= i < s.len() ==> #[trigger] s[i] >= m) ==> below(s, m) <= k,
        (forall|i: int| 0 <= i < k && i < s.len() ==> #[trigger] s[i] <= m) && k <= s.len() ==> above(
            s,
            m,
        ) <= s.len() - k,
        below(s, m) <= s.len(),
        above(s, m) <= s.len(),
    decreases s.len(),
{
    if s.len() > 0 {
        let init = s.drop_last();
        lemma_counts_bounded(init, m, k);
        assert(s.last() == s[s.len() - 1]);
        if forall|i: int| k <= i < s.len() ==> #[trigger] s[i] >= m {
            assert forall|i: int| k <= i < init.len() implies #[trigger] init[i] >= m by {
                assert(s[i] >= m);
            }
        }
        if forall|i: int| 0 <= i < k && i < s.len() ==> #[trigger] s[i] <= m {
            assert forall|i: int| 0 <= i < k && i < init.len() implies #[trigger] init[i] <= m by {
                assert(s[i] <= m);
            }
            if k == s.len() {
                lemma_counts_bounded(init, m, k - 1);
            }
        }
    }
}

/// The median is one of the numbers. No more than half of them are below it, and fewer than half,
/// rounded up, are above: so it is the one in the middle, the upper one of two.
pub proof fn lemma_median_is_in_the_middle(s: Seq<int>)
    requires
        s.len() > 0,
    ensures
        s.contains(median_of(s)),
        2 * below(s, median_of(s)) <= s.len(),
        2 * above(s, median_of(s)) < s.len(),
{
    let m = median_of(s);
    let k = s.len() as int / 2;
    lemma_median_splits(s);
    lemma_sorted(s);
    lemma_counts_sorted(s, m);
    let t = sorted(s);
    assert forall|i: int| k <= i < t.len() implies #[trigger] t[i] >= m by {}
    assert forall|i: int| 0 <= i < k + 1 && i < t.len() implies #[trigger] t[i] <= m by {}
    lemma_counts_bounded(t, m, k);
    lemma_counts_bounded(t, m, k + 1);
}

} // verus!
