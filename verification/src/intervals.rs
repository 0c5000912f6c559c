//! Half-open intervals of columns: counting them, merging them, and the
//! horizontal boundary between two rows of them.

use vstd::prelude::*;

use crate::boundary::{heading, hseg, left_end, ring_h, straight, Edge};
use crate::geometry::Coord;
use crate::sort::{ascending, lemma_same_elements, sort, Ordered};
use crate::sums::{ind, lemma_sum_push};

verus! {

/// One pair of bounds stands before another: by the lower bound, then by the
/// upper.
pub open spec fn pair_before(a: (i32, i32, usize), x1: int, x2: int) -> bool {
    a.0 < x1 || (a.0 == x1 && a.1 < x2)
}

/// The intervals are listed in order, each once, with the number of times that
/// it occurs.
pub open spec fn tallied(s: Seq<(i32, i32, usize)>) -> bool {
    &&& forall|i: int, j: int|
        #![trigger s[i], s[j]]
        0 <= i < j < s.len() ==> pair_before(s[i], s[j].0 as int, s[j].1 as int)
    &&& forall|i: int| 0 <= i < s.len() ==> (#[trigger] s[i]).2 > 0
}

/// How often the interval occurs in the tally.
pub open spec fn tally(s: Seq<(i32, i32, usize)>, x1: int, x2: int) -> int {
    if exists|i: int| 0 <= i < s.len() && (#[trigger] s[i]).0 == x1 && s[i].1 == x2 {
        let i = choose|i: int| 0 <= i < s.len() && (#[trigger] s[i]).0 == x1 && s[i].1 == x2;
        s[i].2 as int
    } else {
        0
    }
}

proof fn lemma_tally_at(s: Seq<(i32, i32, usize)>, i: int)
    requires
        tallied(s),
        0 <= i < s.len(),
    ensures
        tally(s, s[i].0 as int, s[i].1 as int) == s[i].2,
{
    let x1 = s[i].0 as int;
    let x2 = s[i].1 as int;
    assert(s[i].0 == x1 && s[i].1 == x2);
    let k = choose|k: int| 0 <= k < s.len() && (#[trigger] s[k]).0 == x1 && s[k].1 == x2;
    assert(k == i);
}

/// Every interval that occurs has its entry.
pub proof fn lemma_tally_entry(s: Seq<(i32, i32, usize)>, x1: int, x2: int) -> (i: int)
    requires
        tallied(s),
        tally(s, x1, x2) > 0,
    ensures
        0 <= i < s.len(),
        s[i].0 == x1,
        s[i].1 == x2,
{
    choose|k: int| 0 <= k < s.len() && (#[trigger] s[k]).0 == x1 && s[k].1 == x2
}

/// Every entry is of an interval that occurs.
pub proof fn lemma_entry_tally(s: Seq<(i32, i32, usize)>, i: int)
    requires
        tallied(s),
        0 <= i < s.len(),
    ensures
        tally(s, s[i].0 as int, s[i].1 as int) > 0,
{
    lemma_tally_at(s, i);
}

/// Looks the interval up: its place, or the place where it belongs.
fn find_interval(active: &Vec<(i32, i32, usize)>, x1: i32, x2: i32) -> (place: Result<usize, usize>)
    requires
        tallied(active@),
    ensures
        match place {
            Ok(i) => i < active@.len() && active@[i as int].0 == x1 && active@[i as int].1 == x2,
            Err(i) => {
                &&& i <= active@.len()
                &&& forall|k: int| 0 <= k < i ==> pair_before(#[trigger] active@[k], x1 as int, x2 as int)
                &&& forall|k: int|
                    i <= k < active@.len() ==> {
                        ||| x1 < (#[trigger] active@[k]).0
                        ||| x1 == active@[k].0 && x2 < active@[k].1
                    }
            },
        },
{
    let mut low: usize = 0;
    let mut high: usize = active.len();
    while low < high
        invariant
            tallied(active@),
            low <= high <= active@.len(),
            forall|k: int| 0 <= k < low ==> pair_before(#[trigger] active@[k], x1 as int, x2 as int),
            forall|k: int|
                high <= k < active@.len() ==> {
                    ||| x1 < (#[trigger] active@[k]).0
                    ||| x1 == active@[k].0 && x2 < active@[k].1
                },
        decreases high - low,
    {
        let middle: usize = low + (high - low) / 2;
        let probe = active[middle];
        if probe.0 == x1 && probe.1 == x2 {
            return Ok(middle);
        }
        if probe.0 < x1 || (probe.0 == x1 && probe.1 < x2) {
            low = middle + 1;
        } else {
            high = middle;
        }
    }
    Err(low)
}

/// Counts one more occurrence of the interval from `x1` to `x2`.
pub fn add_interval(active: &mut Vec<(i32, i32, usize)>, x1: i32, x2: i32)
    requires
        tallied(old(active)@),
        tally(old(active)@, x1 as int, x2 as int) < usize::MAX,
    ensures
        tallied(final(active)@),
        forall|a: int, b: int| #[trigger]
            tally(final(active)@, a, b) == tally(old(active)@, a, b) + ind(a == x1 && b == x2),
{
    let ghost before = active@;
    match find_interval(active, x1, x2) {
        Ok(index) => {
            let entry = active[index];
            proof {
                lemma_tally_at(before, index as int);
            }
            active.set(index, (entry.0, entry.1, entry.2 + 1));
            proof {
                assert(tallied(active@));
                lemma_tally_changed(before, active@, index as int, x1 as int, x2 as int);
            }
        },
        Err(index) => {
            active.insert(index, (x1, x2, 1));
            proof {
                let after = active@;
                let n = index as int;
                assert forall|i: int, j: int|
                    #![trigger after[i], after[j]]
                    0 <= i < j < after.len() implies pair_before(
                    after[i],
                    after[j].0 as int,
                    after[j].1 as int,
                ) by {
                    let i0 = if i < n { i } else { i - 1 };
                    let j0 = if j < n { j } else { j - 1 };
                    if i != n {
                        assert(after[i] == before[i0]);
                    }
                    if j != n {
                        assert(after[j] == before[j0]);
                    }
                }
                assert forall|i: int| 0 <= i < after.len() implies (#[trigger] after[i]).2 > 0 by {
                    if i != n {
                        assert(after[i] == before[if i < n { i } else { i - 1 }]);
                    }
                }
                assert(before =~= after.remove(n));
                lemma_tally_inserted(before, after, n, x1 as int, x2 as int);
            }
        },
    }
}

proof fn lemma_tally_changed(
    before: Seq<(i32, i32, usize)>,
    after: Seq<(i32, i32, usize)>,
    n: int,
    x1: int,
    x2: int,
)
    requires
        tallied(before),
        tallied(after),
        0 <= n < before.len(),
        after == before.update(n, after[n]),
        before[n].0 == x1 && before[n].1 == x2,
        after[n].0 == x1 && after[n].1 == x2,
    ensures
        forall|a: int, b: int| #[trigger]
            tally(after, a, b) == tally(before, a, b) + if a == x1 && b == x2 {
                after[n].2 - before[n].2
            } else {
                0
            },
{
    lemma_tally_at(before, n);
    lemma_tally_at(after, n);
    assert forall|a: int, b: int| !(a == x1 && b == x2) implies #[trigger] tally(after, a, b)
        == tally(before, a, b) by {
        if tally(after, a, b) != 0 {
            let k = choose|k: int| 0 <= k < after.len() && (#[trigger] after[k]).0 == a && after[k].1 == b;
            assert(before[k] == after[k]);
            lemma_tally_at(before, k);
            lemma_tally_at(after, k);
        } else if tally(before, a, b) != 0 {
            let k = choose|k: int|
                0 <= k < before.len() && (#[trigger] before[k]).0 == a && before[k].1 == b;
            assert(before[k] == after[k]);
            lemma_tally_at(before, k);
            lemma_tally_at(after, k);
        }
    }
}

proof fn lemma_tally_inserted(
    before: Seq<(i32, i32, usize)>,
    after: Seq<(i32, i32, usize)>,
    n: int,
    x1: int,
    x2: int,
)
    requires
        tallied(before),
        tallied(after),
        0 <= n < after.len(),
        before == after.remove(n),
        after[n].0 == x1 && after[n].1 == x2,
    ensures
        forall|a: int, b: int| #[trigger]
            tally(after, a, b) == tally(before, a, b) + if a == x1 && b == x2 {
                after[n].2 as int
            } else {
                0
            },
{
    lemma_tally_at(after, n);
    if tally(before, x1, x2) != 0 {
        let k = choose|k: int| 0 <= k < before.len() && (#[trigger] before[k]).0 == x1 && before[k].1 == x2;
        let k2 = if k < n { k } else { k + 1 };
        assert(after[k2] == before[k]);
        assert(after[n].0 == x1);
    }
    assert forall|a: int, b: int| !(a == x1 && b == x2) implies #[trigger] tally(after, a, b)
        == tally(before, a, b) by {
        if tally(after, a, b) != 0 {
            let k = choose|k: int| 0 <= k < after.len() && (#[trigger] after[k]).0 == a && after[k].1 == b;
            let k2 = if k < n { k } else { k - 1 };
            assert(before[k2] == after[k]);
            lemma_tally_at(before, k2);
            lemma_tally_at(after, k);
        } else if tally(before, a, b) != 0 {
            let k = choose|k: int|
                0 <= k < before.len() && (#[trigger] before[k]).0 == a && before[k].1 == b;
            let k2 = if k < n { k } else { k + 1 };
            assert(before[k] == after[k2]);
            lemma_tally_at(before, k);
            lemma_tally_at(after, k2);
        }
    }
}

/// Counts one occurrence of the interval from `x1` to `x2` less.
pub fn remove_interval(active: &mut Vec<(i32, i32, usize)>, x1: i32, x2: i32)
    requires
        tallied(old(active)@),
        tally(old(active)@, x1 as int, x2 as int) > 0,
    ensures
        tallied(final(active)@),
        forall|a: int, b: int| #[trigger]
            tally(final(active)@, a, b) == tally(old(active)@, a, b) - ind(a == x1 && b == x2),
{
    let ghost before = active@;
    match find_interval(active, x1, x2) {
        Ok(index) => {
            let entry = active[index];
            proof {
                lemma_tally_at(before, index as int);
            }
            if entry.2 == 1 {
                active.remove(index);
                proof {
                    let after = active@;
                    let n = index as int;
                    assert forall|i: int, j: int|
                        #![trigger after[i], after[j]]
                        0 <= i < j < after.len() implies pair_before(
                        after[i],
                        after[j].0 as int,
                        after[j].1 as int,
                    ) by {
                        assert(after[i] == before[if i < n { i } else { i + 1 }]);
                        assert(after[j] == before[if j < n { j } else { j + 1 }]);
                    }
                    assert forall|i: int| 0 <= i < after.len() implies (#[trigger] after[i]).2 > 0 by {
                        assert(after[i] == before[if i < n { i } else { i + 1 }]);
                    }
                    lemma_tally_inserted(after, before, n, x1 as int, x2 as int);
                }
            } else {
                active.set(index, (entry.0, entry.1, entry.2 - 1));
                proof {
                    assert(tallied(active@));
                    lemma_tally_changed(before, active@, index as int, x1 as int, x2 as int);
                }
            }
        },
        Err(index) => {
            proof {
                let k = lemma_tally_entry(before, x1 as int, x2 as int);
                assert(before[k].0 == x1);
            }
        },
    }
}

/// Disjoint intervals from left to right, with a gap after each.
pub open spec fn separated(c: Seq<(i32, i32)>) -> bool {
    &&& forall|i: int| 0 <= i < c.len() ==> (#[trigger] c[i]).0 < c[i].1
    &&& forall|i: int, j: int| #![trigger c[i], c[j]] 0 <= i < j < c.len() ==> c[i].1 < c[j].0
}

/// Column `x` lies in one of the intervals.
pub open spec fn in_cover(c: Seq<(i32, i32)>, x: int) -> bool {
    exists|i: int| 0 <= i < c.len() && (#[trigger] c[i]).0 <= x < c[i].1
}

/// Column `x` lies in one of the first `n` tallied intervals.
pub open spec fn in_tally(s: Seq<(i32, i32, usize)>, n: int, x: int) -> bool {
    exists|i: int| 0 <= i < n && (#[trigger] s[i]).0 <= x < s[i].1
}

/// Collapses the sorted active intervals into disjoint covered intervals.
pub fn merge_active(active: &[(i32, i32, usize)], covered: &mut Vec<(i32, i32)>)
    requires
        forall|i: int, j: int| #![trigger active@[i], active@[j]] 0 <= i < j < active@.len() ==> active@[i].0 <= active@[j].0,
        forall|i: int| 0 <= i < active@.len() ==> (#[trigger] active@[i]).0 < active@[i].1,
    ensures
        separated(final(covered)@),
        forall|x: int| #[trigger] in_cover(final(covered)@, x) == in_tally(active@, active@.len() as int, x),
{
    covered.clear();
    let mut next: usize = 0;
    while next < active.len()
        invariant
            next <= active@.len(),
            forall|i: int, j: int| #![trigger active@[i], active@[j]] 0 <= i < j < active@.len() ==> active@[i].0 <= active@[j].0,
            forall|i: int| 0 <= i < active@.len() ==> (#[trigger] active@[i]).0 < active@[i].1,
            separated(covered@),
            forall|x: int| #[trigger] in_cover(covered@, x) == in_tally(active@, next as int, x),
            next == 0 ==> covered@.len() == 0,
            next > 0 ==> covered@.len() > 0 && covered@.last().0 <= active@[next - 1].0,
        decreases active@.len() - next,
    {
        let interval = active[next];
        let x1: i32 = interval.0;
        let x2: i32 = interval.1;
        let ghost before = covered@;
        let count: usize = covered.len();
        if count > 0 && x1 <= covered[count - 1].1 {
            let last = covered[count - 1];
            let end: i32 = if last.1 < x2 { x2 } else { last.1 };
            covered.set(count - 1, (last.0, end));
        } else {
            covered.push((x1, x2));
        }
        proof {
            let after = covered@;
            let n = next as int;
            let s = active@;
            if n > 0 {
                assert(s[n - 1].0 <= s[n].0);
            }
            assert forall|i: int, j: int| #![trigger after[i], after[j]] 0 <= i < j < after.len() implies after[i].1
                < after[j].0 by {
                if i < before.len() - 1 {
                    assert(after[i] == before[i]);
                    assert(before[i].1 < before[before.len() - 1].0);
                }
                if j < before.len() {
                    assert(after[j].0 == before[j].0);
                }
            }
            assert forall|x: int| #[trigger] in_cover(after, x) == in_tally(s, n + 1, x) by {
                assert(in_cover(before, x) == in_tally(s, n, x));
                if in_cover(after, x) {
                    let i = choose|i: int| 0 <= i < after.len() && (#[trigger] after[i]).0 <= x < after[i].1;
                    if i < before.len() && before[i].0 <= x < before[i].1 {
                        assert(in_cover(before, x));
                        let k = choose|k: int| 0 <= k < n && (#[trigger] s[k]).0 <= x < s[k].1;
                        assert(s[k].0 <= x < s[k].1);
                    } else {
                        assert(s[n].0 <= x < s[n].1);
                    }
                }
                if in_tally(s, n + 1, x) {
                    let k = choose|k: int| 0 <= k < n + 1 && (#[trigger] s[k]).0 <= x < s[k].1;
                    if k < n {
                        assert(s[k].0 <= x < s[k].1);
                        assert(in_tally(s, n, x));
                        let i = choose|i: int| 0 <= i < before.len() && (#[trigger] before[i]).0 <= x < before[i].1;
                        assert(after[i].0 <= x < after[i].1);
                    } else {
                        let m = after.len() - 1;
                        assert(after[m].0 <= x < after[m].1);
                    }
                }
            }
        }
        next = next + 1;
    }
}

/// Whether two lists of intervals are the same.
pub fn same_intervals(a: &Vec<(i32, i32)>, b: &Vec<(i32, i32)>) -> (same: bool)
    ensures
        same == (a@ == b@),
{
    if a.len() != b.len() {
        return false;
    }
    let mut i: usize = 0;
    while i < a.len()
        invariant
            i <= a@.len(),
            a@.len() == b@.len(),
            forall|k: int| 0 <= k < i ==> a@[k] == b@[k],
        decreases a@.len() - i,
    {
        if a[i].0 != b[i].0 || a[i].1 != b[i].1 {
            proof {
                assert(a@[i as int] != b@[i as int]);
            }
            return false;
        }
        i = i + 1;
    }
    assert(a@ =~= b@);
    true
}

/// The column is where one of the intervals begins or ends.
spec fn is_bound(intervals: Seq<(i32, i32)>, x: i32) -> bool {
    exists|k: int|
        0 <= k < intervals.len() && ((#[trigger] intervals[k]).0 == x || intervals[k].1 == x)
}

/// Between separated intervals lie gaps, so at a bound of one the row changes.
proof fn lemma_bound_breaks(c: Seq<(i32, i32)>, x: i32)
    requires
        separated(c),
        is_bound(c, x),
    ensures
        in_cover(c, x - 1) != in_cover(c, x as int),
{
    let n = choose|k: int| 0 <= k < c.len() && ((#[trigger] c[k]).0 == x || c[k].1 == x);
    assert(c[n].0 < c[n].1);
    assert forall|i: int| 0 <= i < c.len() && i != n implies !((#[trigger] c[i]).0 <= x < c[i].1)
        && !(c[i].0 <= x - 1 < c[i].1) by {
        if i < n {
            assert(c[i].1 < c[n].0);
        } else {
            assert(c[n].1 < c[i].0);
        }
    }
    if c[n].0 == x {
        assert(c[n].0 <= x < c[n].1);
    } else {
        assert(c[n].0 <= x - 1 < c[n].1);
    }
}

/// Puts the bounds of the intervals behind what is there.
fn push_bounds(xs: &mut Vec<i32>, intervals: &Vec<(i32, i32)>)
    ensures
        forall|v: i32| #[trigger] old(xs)@.contains(v) ==> final(xs)@.contains(v),
        forall|k: int|
            0 <= k < final(xs)@.len() ==> old(xs)@.contains(#[trigger] final(xs)@[k]) || is_bound(
                intervals@,
                final(xs)@[k],
            ),
        forall|i: int|
            0 <= i < intervals@.len() ==> final(xs)@.contains((#[trigger] intervals@[i]).0)
                && final(xs)@.contains(intervals@[i].1),
{
    let ghost before = xs@;
    let mut next: usize = 0;
    while next < intervals.len()
        invariant
            next <= intervals@.len(),
            forall|v: i32| #[trigger] before.contains(v) ==> xs@.contains(v),
            forall|k: int|
                0 <= k < xs@.len() ==> before.contains(#[trigger] xs@[k]) || is_bound(
                    intervals@,
                    xs@[k],
                ),
            forall|i: int|
                0 <= i < next ==> xs@.contains((#[trigger] intervals@[i]).0) && xs@.contains(
                    intervals@[i].1,
                ),
        decreases intervals@.len() - next,
    {
        let ghost was = xs@;
        let interval = intervals[next];
        xs.push(interval.0);
        xs.push(interval.1);
        proof {
            assert forall|v: i32| #[trigger] was.contains(v) implies xs@.contains(v) by {
                let k = choose|k: int| 0 <= k < was.len() && was[k] == v;
                assert(xs@[k] == v);
            }
            assert(xs@[was.len() as int] == interval.0);
            assert(xs@[was.len() as int + 1] == interval.1);
            assert forall|k: int| 0 <= k < xs@.len() implies before.contains(#[trigger] xs@[k])
                || is_bound(intervals@, xs@[k]) by {
                if k < was.len() {
                    assert(xs@[k] == was[k]);
                } else {
                    assert(intervals@[next as int] == interval);
                }
            }
        }
        next = next + 1;
    }
}

pub open spec fn rising(s: Seq<i32>) -> bool {
    forall|i: int, j: int| #![trigger s[i], s[j]] 0 <= i < j < s.len() ==> s[i] < s[j]
}

/// Drops the repetitions from sorted values.
fn dedup(sorted: &Vec<i32>) -> (distinct: Vec<i32>)
    requires
        ascending(sorted@),
    ensures
        rising(distinct@),
        forall|v: i32| #[trigger] distinct@.contains(v) <==> sorted@.contains(v),
{
    let mut distinct: Vec<i32> = Vec::new();
    let mut next: usize = 0;
    while next < sorted.len()
        invariant
            next <= sorted@.len(),
            ascending(sorted@),
            rising(distinct@),
            next == 0 ==> distinct@.len() == 0,
            next > 0 ==> distinct@.len() > 0 && distinct@.last() == sorted@[next - 1],
            forall|k: int| 0 <= k < next ==> distinct@.contains(#[trigger] sorted@[k]),
            forall|k: int| 0 <= k < distinct@.len() ==> sorted@.contains(#[trigger] distinct@[k]),
        decreases sorted@.len() - next,
    {
        let value: i32 = sorted[next];
        let count: usize = distinct.len();
        let ghost before = distinct@;
        if count == 0 || distinct[count - 1] != value {
            distinct.push(value);
        }
        proof {
            let n = next as int;
            if n > 0 {
                assert(sorted@[n - 1].leq(sorted@[n]));
            }
            assert(distinct@[distinct@.len() - 1] == value);
            assert forall|k: int| 0 <= k < n implies distinct@.contains(#[trigger] sorted@[k]) by {
                let q = choose|q: int| 0 <= q < before.len() && before[q] == sorted@[k];
                assert(distinct@[q] == sorted@[k]);
            }
            assert forall|i: int, j: int|
                #![trigger distinct@[i], distinct@[j]]
                0 <= i < j < distinct@.len() implies distinct@[i] < distinct@[j] by {
                if i < before.len() - 1 {
                    assert(before[i] < before[before.len() - 1]);
                }
            }
        }
        next = next + 1;
    }
    proof {
        assert forall|v: i32| #[trigger] distinct@.contains(v) <==> sorted@.contains(v) by {
            if distinct@.contains(v) {
                let q = choose|q: int| 0 <= q < distinct@.len() && distinct@[q] == v;
                assert(sorted@.contains(distinct@[q]));
            }
            if sorted@.contains(v) {
                let q = choose|q: int| 0 <= q < sorted@.len() && sorted@[q] == v;
                assert(distinct@.contains(sorted@[q]));
            }
        }
    }
    distinct
}

/// How the row below a line differs from the row above it in column `x`.
pub open spec fn cover_step(above: Seq<(i32, i32)>, below: Seq<(i32, i32)>, x: int) -> int {
    ind(in_cover(below, x)) - ind(in_cover(above, x))
}

/// One of the rows changes from the column before `x` to `x` itself.
#[verifier::opaque]
pub open spec fn row_breaks(above: Seq<(i32, i32)>, below: Seq<(i32, i32)>, x: int) -> bool {
    in_cover(above, x - 1) != in_cover(above, x) || in_cover(below, x - 1) != in_cover(below, x)
}

/// The edges lie on line `y`, from left to right, and are the difference between
/// the rows above and below it, directed so that what is covered lies on their
/// right. Each goes on until one of the rows changes.
pub open spec fn line_edges(
    edges: Seq<Edge>,
    y: i32,
    above: Seq<(i32, i32)>,
    below: Seq<(i32, i32)>,
) -> bool {
    &&& forall|i: int|
        0 <= i < edges.len() ==> {
            let e = #[trigger] edges[i];
            &&& straight(e)
            &&& e.start.y == y && e.end.y == y
            &&& e.direction == heading(e)
            &&& row_breaks(above, below, e.start.x as int)
            &&& row_breaks(above, below, e.end.x as int)
            &&& forall|x: int|
                #[trigger] hseg(e, x, y as int) != 0 ==> hseg(e, x, y as int) == cover_step(
                    above,
                    below,
                    x,
                )
        }
    &&& forall|i: int, j: int|
        #![trigger edges[i], edges[j]]
        0 <= i < j < edges.len() ==> left_end(edges[i]) < left_end(edges[j])
    &&& forall|x: int| #[trigger] ring_h(edges, x, y as int) == cover_step(above, below, x)
}

impl Edge {
    /// The edge from one point to another on the same line.
    pub fn new(start: Coord, end: Coord) -> (edge: Edge)
        requires
            start != end,
            start.x == end.x || start.y == end.y,
        ensures
            edge.start == start,
            edge.end == end,
            edge.direction == heading(edge),
            straight(edge),
    {
        let direction: u8 = if start.y == end.y {
            if start.x < end.x {
                0
            } else {
                2
            }
        } else if start.y < end.y {
            1
        } else {
            3
        };
        Edge { start, end, direction }
    }
}

/// Steps over the intervals that end at or before `x`.
fn skip_ended(intervals: &Vec<(i32, i32)>, from: usize, x: i32) -> (index: usize)
    requires
        separated(intervals@),
        from <= intervals@.len(),
        forall|k: int| 0 <= k < from ==> (#[trigger] intervals@[k]).1 <= x,
    ensures
        from <= index <= intervals@.len(),
        forall|k: int| 0 <= k < index ==> (#[trigger] intervals@[k]).1 <= x,
        index < intervals@.len() ==> intervals@[index as int].1 > x,
{
    let mut index: usize = from;
    while index < intervals.len() && intervals[index].1 <= x
        invariant
            separated(intervals@),
            from <= index <= intervals@.len(),
            forall|k: int| 0 <= k < index ==> (#[trigger] intervals@[k]).1 <= x,
        decreases intervals@.len() - index,
    {
        index = index + 1;
    }
    index
}

/// Between two neighbouring bounds a row of intervals is either covered
/// throughout or not at all.
proof fn lemma_uniform(c: Seq<(i32, i32)>, xs: Seq<i32>, i: int, index: int, x: int)
    requires
        separated(c),
        rising(xs),
        forall|k: int| 0 <= k < c.len() ==> xs.contains((#[trigger] c[k]).0) && xs.contains(c[k].1),
        0 <= i < xs.len() - 1,
        xs[i] <= x < xs[i + 1],
        0 <= index <= c.len(),
        forall|k: int| 0 <= k < index ==> (#[trigger] c[k]).1 <= xs[i],
        index < c.len() ==> c[index].1 > xs[i],
    ensures
        in_cover(c, x) == (index < c.len() && c[index].0 <= xs[i]),
{
    if index < c.len() {
        let a = choose|a: int| 0 <= a < xs.len() && xs[a] == c[index].0;
        let b = choose|b: int| 0 <= b < xs.len() && xs[b] == c[index].1;
        assert(xs[a] == c[index].0 && xs[b] == c[index].1);
        assert(a <= i || a >= i + 1);
        assert(b >= i + 1);
        assert(xs[b] >= xs[i + 1]);
        if c[index].0 <= xs[i] {
            assert(c[index].0 <= x < c[index].1);
        } else {
            assert(xs[a] >= xs[i + 1]);
            assert forall|k: int| 0 <= k < c.len() implies !((#[trigger] c[k]).0 <= x < c[k].1) by {
                if k > index {
                    assert(c[index].1 < c[k].0);
                }
            }
        }
    }
}

/// Nothing is covered outside the outermost bounds.
proof fn lemma_beyond(c: Seq<(i32, i32)>, xs: Seq<i32>, x: int)
    requires
        rising(xs),
        forall|k: int| 0 <= k < c.len() ==> xs.contains((#[trigger] c[k]).0) && xs.contains(c[k].1),
        xs.len() == 0 || x < xs[0] || x >= xs[xs.len() - 1],
    ensures
        !in_cover(c, x),
{
    if in_cover(c, x) {
        let k = choose|k: int| 0 <= k < c.len() && (#[trigger] c[k]).0 <= x < c[k].1;
        let a = choose|a: int| 0 <= a < xs.len() && xs[a] == c[k].0;
        let b = choose|b: int| 0 <= b < xs.len() && xs[b] == c[k].1;
        assert(xs.contains(c[k].0) && xs.contains(c[k].1));
        assert(xs[a] == c[k].0 && xs[b] == c[k].1);
        assert(xs[0] <= xs[a]);
        assert(xs[b] <= xs[xs.len() - 1]);
    }
}

/// What has been drawn on line `y` up to column `upto`.
spec fn drawn(
    new: Seq<Edge>,
    y: i32,
    above: Seq<(i32, i32)>,
    below: Seq<(i32, i32)>,
    from: int,
    upto: int,
) -> bool {
    &&& forall|i: int|
        0 <= i < new.len() ==> {
            let e = #[trigger] new[i];
            &&& straight(e)
            &&& e.start.y == y && e.end.y == y
            &&& e.direction == heading(e)
            &&& row_breaks(above, below, e.start.x as int)
            &&& row_breaks(above, below, e.end.x as int)
            &&& forall|x: int|
                #[trigger] hseg(e, x, y as int) != 0 ==> hseg(e, x, y as int) == cover_step(
                    above,
                    below,
                    x,
                )
        }
    &&& forall|i: int| 0 <= i < new.len() ==> left_end(#[trigger] new[i]) < upto
    &&& forall|i: int, j: int|
        #![trigger new[i], new[j]]
        0 <= i < j < new.len() ==> left_end(new[i]) < left_end(new[j])
    &&& forall|x: int| #[trigger]
        ring_h(new, x, y as int) == if from <= x < upto {
            cover_step(above, below, x)
        } else {
            0
        }
}

proof fn lemma_drawn(
    new: Seq<Edge>,
    e: Edge,
    y: i32,
    above: Seq<(i32, i32)>,
    below: Seq<(i32, i32)>,
    from: int,
    x1: int,
    x2: int,
)
    requires
        drawn(new, y, above, below, from, x1),
        from <= x1 < x2,
        straight(e),
        e.start.y == y && e.end.y == y,
        e.direction == heading(e),
        left_end(e) == x1,
        row_breaks(above, below, e.start.x as int),
        row_breaks(above, below, e.end.x as int),
        forall|x: int| x1 <= x < x2 ==> #[trigger] hseg(e, x, y as int) == cover_step(above, below, x),
        forall|x: int| !(x1 <= x < x2) ==> #[trigger] hseg(e, x, y as int) == 0,
    ensures
        drawn(new.push(e), y, above, below, from, x2),
{
    assert forall|x: int| #[trigger]
        ring_h(new.push(e), x, y as int) == if from <= x < x2 {
            cover_step(above, below, x)
        } else {
            0
        } by {
        lemma_sum_push(new, e, |q: Edge| hseg(q, x, y as int));
        assert(ring_h(new, x, y as int) == if from <= x < x1 {
            cover_step(above, below, x)
        } else {
            0
        });
        assert(hseg(e, x, y as int) == hseg(e, x, y as int));
    }
}

/// The columns where one of the rows changes, in order.
fn all_bounds(above: &Vec<(i32, i32)>, below: &Vec<(i32, i32)>) -> (xs: Vec<i32>)
    requires
        separated(above@),
        separated(below@),
    ensures
        rising(xs@),
        forall|k: int|
            0 <= k < above@.len() ==> xs@.contains((#[trigger] above@[k]).0) && xs@.contains(
                above@[k].1,
            ),
        forall|k: int|
            0 <= k < below@.len() ==> xs@.contains((#[trigger] below@[k]).0) && xs@.contains(
                below@[k].1,
            ),
        forall|k: int| 0 <= k < xs@.len() ==> row_breaks(above@, below@, #[trigger] xs@[k] as int),
{
    let mut bounds: Vec<i32> = Vec::new();
    push_bounds(&mut bounds, above);
    let ghost halfway = bounds@;
    push_bounds(&mut bounds, below);
    let ghost unsorted = bounds@;
    let sorted = sort(bounds);
    proof {
        lemma_same_elements(sorted@, unsorted);
    }
    let xs = dedup(&sorted);
    proof {
        assert forall|k: int| 0 <= k < xs@.len() implies row_breaks(
            above@,
            below@,
            #[trigger] xs@[k] as int,
        ) by {
            reveal(row_breaks);
            let v = xs@[k];
            assert(xs@.contains(v));
            assert(unsorted.contains(v));
            let q = choose|q: int| 0 <= q < unsorted.len() && unsorted[q] == v;
            if halfway.contains(v) {
                let r = choose|r: int| 0 <= r < halfway.len() && halfway[r] == v;
                assert(is_bound(above@, halfway[r]));
                lemma_bound_breaks(above@, v);
            } else {
                assert(is_bound(below@, unsorted[q]));
                lemma_bound_breaks(below@, v);
            }
        }
    }
    xs
}

/// Draws the boundary between the row above line `y` and the row below it.
pub fn add_horizontal_edges(
    y: i32,
    above: &Vec<(i32, i32)>,
    below: &Vec<(i32, i32)>,
    edges: &mut Vec<Edge>,
)
    requires
        separated(above@),
        separated(below@),
    ensures
        final(edges)@.len() >= old(edges)@.len(),
        final(edges)@.subrange(0, old(edges)@.len() as int) == old(edges)@,
        line_edges(
            final(edges)@.subrange(old(edges)@.len() as int, final(edges)@.len() as int),
            y,
            above@,
            below@,
        ),
{
    let xs = all_bounds(above, below);
    let ghost first = edges@;
    let ghost new = Seq::<Edge>::empty();
    let mut above_index: usize = 0;
    let mut below_index: usize = 0;
    let mut i: usize = 0;
    let ghost from: int = if xs@.len() > 0 {
        xs@[0] as int
    } else {
        0
    };
    proof {
        assert(edges@ =~= first + new);
    }
    while xs.len() > 0 && i < xs.len() - 1
        invariant
            separated(above@),
            separated(below@),
            rising(xs@),
            forall|k: int|
                0 <= k < xs@.len() ==> row_breaks(above@, below@, #[trigger] xs@[k] as int),
            forall|k: int|
                0 <= k < above@.len() ==> xs@.contains((#[trigger] above@[k]).0) && xs@.contains(
                    above@[k].1,
                ),
            forall|k: int|
                0 <= k < below@.len() ==> xs@.contains((#[trigger] below@[k]).0) && xs@.contains(
                    below@[k].1,
                ),
            xs@.len() > 0 ==> i <= xs@.len() - 1 && from == xs@[0],
            i > 0 ==> xs@.len() > 0,
            above_index <= above@.len(),
            below_index <= below@.len(),
            i > 0 ==> forall|k: int| 0 <= k < above_index ==> (#[trigger] above@[k]).1 <= xs@[i - 1],
            i > 0 ==> forall|k: int| 0 <= k < below_index ==> (#[trigger] below@[k]).1 <= xs@[i - 1],
            i == 0 ==> above_index == 0 && below_index == 0,
            edges@ == first + new,
            xs@.len() > 0 ==> drawn(new, y, above@, below@, from, xs@[i as int] as int),
            xs@.len() == 0 ==> new.len() == 0,
        decreases xs@.len() - i,
    {
        let x1: i32 = xs[i];
        let x2: i32 = xs[i + 1];
        proof {
            assert(xs@[i as int] < xs@[i + 1]);
            if i > 0 {
                assert(xs@[i - 1] < xs@[i as int]);
            }
        }
        above_index = skip_ended(above, above_index, x1);
        below_index = skip_ended(below, below_index, x1);
        let is_above = above_index < above.len() && above[above_index].0 <= x1;
        let is_below = below_index < below.len() && below[below_index].0 <= x1;
        proof {
            assert forall|x: int| x1 <= x < x2 implies #[trigger] cover_step(above@, below@, x) == ind(
                is_below,
            ) - ind(is_above) by {
                lemma_uniform(above@, xs@, i as int, above_index as int, x);
                lemma_uniform(below@, xs@, i as int, below_index as int, x);
            }
        }
        if !is_above && is_below {
            let edge = Edge::new(Coord { x: x1, y }, Coord { x: x2, y });
            edges.push(edge);
            proof {
                lemma_drawn(new, edge, y, above@, below@, from, x1 as int, x2 as int);
                new = new.push(edge);
                assert(edges@ =~= first + new);
            }
        } else if is_above && !is_below {
            let edge = Edge::new(Coord { x: x2, y }, Coord { x: x1, y });
            edges.push(edge);
            proof {
                lemma_drawn(new, edge, y, above@, below@, from, x1 as int, x2 as int);
                new = new.push(edge);
                assert(edges@ =~= first + new);
            }
        } else {
            proof {
                assert(drawn(new, y, above@, below@, from, x2 as int)) by {
                    assert forall|x: int| #[trigger]
                        ring_h(new, x, y as int) == if from <= x < x2 {
                            cover_step(above@, below@, x)
                        } else {
                            0
                        } by {
                        assert(ring_h(new, x, y as int) == if from <= x < x1 {
                            cover_step(above@, below@, x)
                        } else {
                            0
                        });
                        assert(x1 <= x < x2 ==> cover_step(above@, below@, x) == 0);
                    }
                }
            }
        }
        i = i + 1;
    }
    proof {
        assert(edges@.subrange(0, first.len() as int) =~= first);
        assert(edges@.subrange(first.len() as int, edges@.len() as int) =~= new);
        assert forall|x: int| #[trigger] ring_h(new, x, y as int) == cover_step(above@, below@, x) by {
            if xs@.len() == 0 || x < xs@[0] || x >= xs@[xs@.len() - 1] {
                lemma_beyond(above@, xs@, x);
                lemma_beyond(below@, xs@, x);
            }
            if xs@.len() == 0 {
                assert(new =~= Seq::empty());
            }
        }
    }
}

} // verus!
