//! Which inner ring belongs to which outer one, and why the polygons made that
//! way fill exactly the region that the rings bound.

use vstd::prelude::*;

use crate::area::lemma_smaller;
use crate::area::{ring_area, size};
use crate::boundary::Edge;
use crate::boundary::{
    borders, boundary, inside, left_cell, near, outer, right_cell, ring_ok, ring_w, total_w,
    Region,
};
use crate::boundary::{
    lemma_comparable, lemma_inside_transitive, lemma_near, lemma_nested, lemma_not_mutual,
    lemma_side, lemma_total, lemma_values,
};
use crate::sums::sum;
use crate::sums::{lemma_sum_positive, lemma_sum_split};

verus! {

/// Each inner ring is owned by an outer ring around it, and by none larger than
/// another that would do.
pub open spec fn owned(rings: Seq<Seq<Edge>>, owner: spec_fn(int) -> int) -> bool {
    forall|h: int|
        0 <= h < rings.len() && !outer(rings, h) ==> {
            let o = #[trigger] owner(h);
            &&& 0 <= o < rings.len()
            &&& outer(rings, o)
            &&& inside(rings, h, o)
            &&& forall|k: int|
                0 <= k < rings.len() && #[trigger] outer(rings, k) && inside(rings, h, k)
                    ==> ring_area(rings[o]) <= ring_area(rings[k])
        }
}

/// The cell lies in outer ring `k` and in none of the inner rings that it owns.
pub open spec fn fills(
    rings: Seq<Seq<Edge>>,
    owner: spec_fn(int) -> int,
    k: int,
    x: int,
    y: int,
) -> bool {
    &&& 0 <= k < rings.len()
    &&& outer(rings, k)
    &&& ring_w(rings[k], x, y) != 0
    &&& forall|h: int|
        0 <= h < rings.len() && !#[trigger] outer(rings, h) && owner(h) == k ==> ring_w(
            rings[h],
            x,
            y,
        ) == 0
}

/// Among the indices that satisfy a condition, one has the least measure.
proof fn lemma_least(n: int, p: spec_fn(int) -> bool, m: spec_fn(int) -> int, w: int) -> (k: int)
    requires
        0 <= w < n,
        p(w),
    ensures
        0 <= k < n,
        p(k),
        forall|i: int| 0 <= i < n && #[trigger] p(i) ==> m(k) <= m(i),
    decreases n,
{
    if w < n - 1 {
        let k = lemma_least(n - 1, p, m, w);
        if p(n - 1) && m(n - 1) < m(k) {
            n - 1
        } else {
            k
        }
    } else if exists|i: int| 0 <= i < n - 1 && #[trigger] p(i) {
        let i = choose|i: int| 0 <= i < n - 1 && #[trigger] p(i);
        let k = lemma_least(n - 1, p, m, i);
        if m(n - 1) < m(k) {
            n - 1
        } else {
            k
        }
    } else {
        n - 1
    }
}

/// If the windings add up to less around one cell than around another, some
/// ring winds around the one less often.
proof fn lemma_some_less(
    rings: Seq<Seq<Edge>>,
    a: (int, int),
    b: (int, int),
) -> (k: int)
    requires
        total_w(rings, a.0, a.1) < total_w(rings, b.0, b.1),
    ensures
        0 <= k < rings.len(),
        ring_w(rings[k], a.0, a.1) < ring_w(rings[k], b.0, b.1),
{
    let wa = |r: Seq<Edge>| ring_w(r, a.0, a.1);
    let wb = |r: Seq<Edge>| ring_w(r, b.0, b.1);
    let d = |r: Seq<Edge>| ring_w(r, b.0, b.1) - ring_w(r, a.0, a.1);
    lemma_sum_split(rings, wb, wa, d);
    lemma_sum_positive(rings, d)
}

/// The same when the sums are equal and some ring winds more often.
proof fn lemma_some_more(
    rings: Seq<Seq<Edge>>,
    a: (int, int),
    b: (int, int),
    h: int,
) -> (k: int)
    requires
        0 <= h < rings.len(),
        total_w(rings, a.0, a.1) == total_w(rings, b.0, b.1),
        ring_w(rings[h], a.0, a.1) < ring_w(rings[h], b.0, b.1),
    ensures
        0 <= k < rings.len(),
        k != h,
        ring_w(rings[k], a.0, a.1) > ring_w(rings[k], b.0, b.1),
{
    let wa = |r: Seq<Edge>| ring_w(r, a.0, a.1);
    let wb = |r: Seq<Edge>| ring_w(r, b.0, b.1);
    let d = |r: Seq<Edge>| ring_w(r, a.0, a.1) - ring_w(r, b.0, b.1);
    lemma_sum_split(rings, wa, wb, d);
    assert(sum(rings, d) == 0);
    if forall|k: int| 0 <= k < rings.len() ==> d(#[trigger] rings[k]) <= 0 {
        let n = |r: Seq<Edge>| -d(r);
        crate::sums::lemma_sum_bounds_term(rings, n, h);
        crate::sums::lemma_sum_scale(rings, n, d, -1);
        assert(false);
    }
    let k = choose|k: int| 0 <= k < rings.len() && d(#[trigger] rings[k]) > 0;
    k
}

/// An empty cell inside an outer ring lies in an inner ring inside that one.
pub proof fn lemma_gap(rings: Seq<Seq<Edge>>, f: Region, e: int, c: (int, int)) -> (h: int)
    requires
        boundary(rings, f),
        0 <= e < rings.len(),
        outer(rings, e),
        ring_w(rings[e], c.0, c.1) != 0,
        !f(c.0, c.1),
    ensures
        0 <= h < rings.len(),
        h != e,
        !outer(rings, h),
        inside(rings, h, e),
        ring_w(rings[h], c.0, c.1) != 0,
{
    let r = right_cell(rings[e][0], 0);
    assert(ring_ok(rings[e]));
    assert(borders(rings[e][0], f));
    lemma_side(rings, f, e, 0, e, 0);
    lemma_total(rings, f, c.0, c.1);
    lemma_total(rings, f, r.0, r.1);
    let k = lemma_some_less(rings, c, r);
    lemma_values(rings, f, e, c.0, c.1);
    lemma_values(rings, f, e, r.0, r.1);
    lemma_values(rings, f, k, c.0, c.1);
    lemma_values(rings, f, k, r.0, r.1);
    assert(k != e);
    assert(ring_w(rings[k], r.0, r.1) == near(rings, k, e));
    if outer(rings, k) {
        lemma_nested(rings, f, k, e, c.0, c.1);
        assert(false);
    }
    lemma_comparable(rings, f, k, e, c.0, c.1);
    k
}

proof fn lemma_filled(
    rings: Seq<Seq<Edge>>,
    f: Region,
    owner: spec_fn(int) -> int,
    x: int,
    y: int,
) -> (k: int)
    requires
        boundary(rings, f),
        owned(rings, owner),
        f(x, y),
    ensures
        fills(rings, owner, k, x, y),
{
    lemma_total(rings, f, x, y);
    let w = lemma_sum_positive(rings, |r: Seq<Edge>| ring_w(r, x, y));
    lemma_values(rings, f, w, x, y);
    let around = |i: int| outer(rings, i) && ring_w(rings[i], x, y) != 0;
    let measure = |i: int| size(rings, i);
    assert(around(w));
    let e = lemma_least(rings.len() as int, around, measure, w);
    assert forall|h: int|
        0 <= h < rings.len() && !#[trigger] outer(rings, h) && owner(h) == e implies ring_w(
        rings[h],
        x,
        y,
    ) == 0 by {
        if ring_w(rings[h], x, y) != 0 {
            let o = owner(h);
            assert(o == e);
            let r = right_cell(rings[h][0], 0);
            assert(ring_ok(rings[h]));
            assert(borders(rings[h][0], f));
            lemma_side(rings, f, h, 0, h, 0);
            lemma_total(rings, f, r.0, r.1);
            lemma_values(rings, f, h, x, y);
            lemma_values(rings, f, h, r.0, r.1);
            let k = lemma_some_more(rings, (x, y), r, h);
            lemma_values(rings, f, k, x, y);
            lemma_values(rings, f, k, r.0, r.1);
            assert(ring_w(rings[k], r.0, r.1) == near(rings, k, h));
            if outer(rings, k) {
                lemma_comparable(rings, f, k, h, x, y);
                assert(inside(rings, k, h));
                lemma_inside_transitive(rings, f, k, h, e);
                lemma_smaller(rings, f, e, k);
                assert(around(k));
            } else {
                lemma_nested(rings, f, k, h, x, y);
            }
        }
    }
    e
}

/// A cell in an inner ring inside an outer one lies in an inner ring that the
/// outer one owns.
pub proof fn lemma_gap_owned(
    rings: Seq<Seq<Edge>>,
    f: Region,
    owner: spec_fn(int) -> int,
    e: int,
    w: int,
    x: int,
    y: int,
) -> (h: int)
    requires
        boundary(rings, f),
        owned(rings, owner),
        0 <= e < rings.len(),
        outer(rings, e),
        0 <= w < rings.len(),
        !outer(rings, w),
        inside(rings, w, e),
        ring_w(rings[w], x, y) != 0,
    ensures
        0 <= h < rings.len(),
        !outer(rings, h),
        owner(h) == e,
        ring_w(rings[h], x, y) != 0,
{
    let candidate = |i: int| !outer(rings, i) && inside(rings, i, e) && ring_w(rings[i], x, y) != 0;
    let measure = |i: int| -size(rings, i);
    assert(candidate(w));
    let h = lemma_least(rings.len() as int, candidate, measure, w);
    let o = owner(h);
    if o != e {
        // Both rings go around the inner one, so they are nested.
        let r = right_cell(rings[h][0], 0);
        assert(ring_w(rings[o], r.0, r.1) == near(rings, o, h));
        assert(ring_w(rings[e], r.0, r.1) == near(rings, e, h));
        lemma_comparable(rings, f, o, e, r.0, r.1);
        assert(ring_area(rings[o]) <= ring_area(rings[e]));
        if inside(rings, e, o) {
            lemma_smaller(rings, f, o, e);
        }
        assert(inside(rings, o, e));
        // The gap around the owner is a larger inner ring than the largest.
        let l = left_cell(rings[o][0], 0);
        assert(ring_ok(rings[o]));
        assert(borders(rings[o][0], f));
        lemma_near(rings, f, o, 0, e, 0);
        lemma_side(rings, f, o, 0, o, 0);
        let g = lemma_gap(rings, f, e, l);
        lemma_near(rings, f, o, 0, g, 0);
        assert(g != o);
        assert(inside(rings, o, g));
        assert(h != o);
        if g == h {
            lemma_not_mutual(rings, f, o, h);
        }
        lemma_inside_transitive(rings, f, h, o, g);
        lemma_nested(rings, f, g, h, x, y);
        lemma_smaller(rings, f, g, h);
        assert(candidate(g));
        assert(false);
    }
    h
}

proof fn lemma_unfilled(
    rings: Seq<Seq<Edge>>,
    f: Region,
    owner: spec_fn(int) -> int,
    e: int,
    x: int,
    y: int,
)
    requires
        boundary(rings, f),
        owned(rings, owner),
        !f(x, y),
    ensures
        !fills(rings, owner, e, x, y),
{
    if fills(rings, owner, e, x, y) {
        let w = lemma_gap(rings, f, e, (x, y));
        let h = lemma_gap_owned(rings, f, owner, e, w, x, y);
        assert(!outer(rings, h));
    }
}

/// No cell is filled twice.
pub proof fn lemma_filled_once(
    rings: Seq<Seq<Edge>>,
    f: Region,
    owner: spec_fn(int) -> int,
    j: int,
    k: int,
    x: int,
    y: int,
)
    requires
        boundary(rings, f),
        owned(rings, owner),
        fills(rings, owner, j, x, y),
        fills(rings, owner, k, x, y),
    ensures
        j == k,
{
    if j != k {
        lemma_comparable(rings, f, j, k, x, y);
        let (a, b) = if inside(rings, j, k) {
            (j, k)
        } else {
            (k, j)
        };
        // Between the two lies a gap around the smaller one.
        let l = left_cell(rings[a][0], 0);
        assert(ring_ok(rings[a]));
        assert(borders(rings[a][0], f));
        lemma_near(rings, f, a, 0, b, 0);
        lemma_side(rings, f, a, 0, a, 0);
        let g = lemma_gap(rings, f, b, l);
        lemma_near(rings, f, a, 0, g, 0);
        lemma_nested(rings, f, g, a, x, y);
        let h = lemma_gap_owned(rings, f, owner, b, g, x, y);
        assert(!outer(rings, h));
    }
}

/// With every inner ring cut out of its owner, the outer rings fill exactly the
/// region that all rings together bound.
pub proof fn lemma_polygons_fill(
    rings: Seq<Seq<Edge>>,
    f: Region,
    owner: spec_fn(int) -> int,
    x: int,
    y: int,
)
    requires
        boundary(rings, f),
        owned(rings, owner),
    ensures
        f(x, y) <==> exists|k: int| fills(rings, owner, k, x, y),
{
    if f(x, y) {
        let k = lemma_filled(rings, f, owner, x, y);
        assert(fills(rings, owner, k, x, y));
    } else {
        assert forall|k: int| !fills(rings, owner, k, x, y) by {
            lemma_unfilled(rings, f, owner, k, x, y);
        }
    }
}

} // verus!
