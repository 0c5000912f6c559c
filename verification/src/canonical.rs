//! Why a region has one outline: the sides of its rings, the order of the sides and
//! the order of the rings all follow from the region.

use vstd::prelude::*;

use crate::assembly::{covers_piece, polygon_shape};
use crate::boundary::{
    borders, comes_before, heading, hseg, left_cell, left_end, length, right_cell, step_h, straight,
    Edge, Region,
};
use crate::connection::{connected, lemma_edge_cells};
use crate::corners::{ahead, corner_ok, side};
use crate::geometry::{polygon_covers, polygons_view, rings_view, Coord, Polygon};
use crate::outline::{
    covers_beside, level_at, outlines_region, ring_at, ring_count, runs_along, side_at, side_count,
    starts_before,
};

verus! {

/// The number of the side behind side `i`, of `n` in a ring.
spec fn next(n: int, i: int) -> int {
    if i + 1 < n {
        i + 1
    } else {
        0
    }
}

/// The number of the side before it.
spec fn prior(n: int, i: int) -> int {
    if i > 0 {
        i - 1
    } else {
        n - 1
    }
}

/// In every corner of a ring, the closing one too, it turns as the region says.
proof fn lemma_ring_corner(f: Region, ring: Seq<Coord>, i: int)
    requires
        runs_along(f, ring),
        0 <= i < side_count(ring),
    ensures
        ({
            let n = side_count(ring);
            let a = side_at(ring, i);
            let b = side_at(ring, next(n, i));
            &&& a.end == b.start
            &&& borders(a, f)
            &&& borders(b, f)
            &&& corner_ok(f, a.start, a.end, b.end)
        }),
        0 <= next(side_count(ring), i) < side_count(ring),
{
    let n = side_count(ring);
    let j = next(n, i);
    assert(borders(side_at(ring, i), f) && borders(side_at(ring, j), f));
    if i + 1 < n {
        assert(corner_ok(f, ring[i], ring[i + 1], ring[i + 2]));
    }
}

/// The point `t` steps behind the start of an edge.
pub open spec fn point_at(e: Edge, t: int) -> (int, int) {
    match heading(e) {
        0 => (e.start.x + t, e.start.y as int),
        1 => (e.start.x as int, e.start.y + t),
        2 => (e.start.x - t, e.start.y as int),
        _ => (e.start.x as int, e.start.y - t),
    }
}

/// A side does not end in the middle of another.
pub proof fn lemma_end_not_inside(f: Region, a: Edge, b: Edge, c: Edge, t: int)
    requires
        borders(a, f),
        borders(b, f),
        borders(c, f),
        a.end == b.start,
        (a.start.x == a.end.x) != (b.start.x == b.end.x),
        heading(c) == heading(a),
        0 < t < length(c),
    ensures
        point_at(c, t) != (a.end.x as int, a.end.y as int),
{
    lemma_edge_cells(c, f, t);
    lemma_edge_cells(b, f, 0);
    if point_at(c, t) == (a.end.x as int, a.end.y as int) {
        assert(right_cell(b, 0) == left_cell(c, t) || left_cell(b, 0) == right_cell(c, t));
    }
}

/// Nor does it start there.
proof fn lemma_start_not_inside(f: Region, z: Edge, a: Edge, c: Edge, t: int)
    requires
        borders(z, f),
        borders(a, f),
        borders(c, f),
        z.end == a.start,
        (z.start.x == z.end.x) != (a.start.x == a.end.x),
        heading(c) == heading(a),
        0 < t < length(c),
    ensures
        point_at(c, t) != (a.start.x as int, a.start.y as int),
{
    let e = length(z) - 1;
    lemma_edge_cells(c, f, t - 1);
    lemma_edge_cells(z, f, e);
    if point_at(c, t) == (a.start.x as int, a.start.y as int) {
        assert(right_cell(z, e) == left_cell(c, t - 1) || left_cell(z, e) == right_cell(c, t - 1));
    }
}

/// Two sides along one level step are one.
proof fn lemma_same_side(
    f: Region,
    p: Seq<Coord>,
    i: int,
    q: Seq<Coord>,
    j: int,
    x: int,
    y: int,
)
    requires
        runs_along(f, p),
        runs_along(f, q),
        0 <= i < side_count(p),
        0 <= j < side_count(q),
        hseg(side_at(p, i), x, y) != 0,
        hseg(side_at(q, j), x, y) != 0,
    ensures
        side_at(p, i) == side_at(q, j),
{
    let n = side_count(p);
    let m = side_count(q);
    let a = side_at(p, i);
    let b = side_at(q, j);
    lemma_ring_corner(f, p, i);
    lemma_ring_corner(f, q, j);
    lemma_ring_corner(f, p, prior(n, i));
    lemma_ring_corner(f, q, prior(m, j));
    assert(next(n, prior(n, i)) == i && next(m, prior(m, j)) == j);
    let a2 = side_at(p, next(n, i));
    let b2 = side_at(q, next(m, j));
    let a0 = side_at(p, prior(n, i));
    let b0 = side_at(q, prior(m, j));
    assert(hseg(a, x, y) == step_h(f, x, y) && hseg(b, x, y) == step_h(f, x, y));
    assert(heading(a) == heading(b));
    assert(a.start.y == y && b.start.y == y);
    let d = if heading(a) == 0 {
        1int
    } else {
        -1int
    };
    if a.end != b.end {
        if length(b) > d * (a.end.x - b.start.x) {
            lemma_end_not_inside(f, a, a2, b, d * (a.end.x - b.start.x));
        } else {
            lemma_end_not_inside(f, b, b2, a, d * (b.end.x - a.start.x));
        }
    }
    if a.start != b.start {
        if d * (a.start.x - b.start.x) > 0 {
            lemma_start_not_inside(f, a0, a, b, d * (a.start.x - b.start.x));
        } else {
            lemma_start_not_inside(f, b0, b, a, d * (b.start.x - a.start.x));
        }
    }
}

/// Behind one side comes one other.
proof fn lemma_next_side(f: Region, p: Seq<Coord>, i: int, q: Seq<Coord>, j: int)
    requires
        runs_along(f, p),
        runs_along(f, q),
        0 <= i < side_count(p),
        0 <= j < side_count(q),
        side_at(p, i) == side_at(q, j),
    ensures
        side_at(p, next(side_count(p), i)) == side_at(q, next(side_count(q), j)),
{
    let n = side_count(p);
    let m = side_count(q);
    let e = side_at(p, i);
    let a = side_at(p, next(n, i));
    let b = side_at(q, next(m, j));
    lemma_ring_corner(f, p, i);
    lemma_ring_corner(f, q, j);
    lemma_ring_corner(f, p, next(n, i));
    lemma_ring_corner(f, q, next(m, j));
    let a2 = side_at(p, next(n, next(n, i)));
    let b2 = side_at(q, next(m, next(m, j)));
    lemma_edge_cells(a, f, 0);
    lemma_edge_cells(b, f, 0);
    assert(side(e.start, e.end) == e);
    assert(side(a.start, a.end) == a && side(b.start, b.end) == b);
    if heading(a) != heading(b) {
        // One turns right, the other left around the cell ahead.
        assert(left_cell(a, 0) == ahead(e) || left_cell(b, 0) == ahead(e));
        assert(false);
    }
    if length(a) < length(b) {
        lemma_end_not_inside(f, a, a2, b, length(a));
    } else if length(b) < length(a) {
        lemma_end_not_inside(f, b, b2, a, length(b));
    }
}

/// The number of the side that comes `t` sides behind side `i`.
spec fn nth(n: int, i: int, t: nat) -> int
    decreases t,
{
    if t == 0 {
        i
    } else {
        next(n, nth(n, i, (t - 1) as nat))
    }
}

proof fn lemma_nth(n: int, i: int, t: nat)
    requires
        0 <= i < n,
    ensures
        0 <= nth(n, i, t) < n,
        i + t < n ==> nth(n, i, t) == i + t,
        i + t == n ==> nth(n, i, t) == 0,
    decreases t,
{
    if t > 0 {
        lemma_nth(n, i, (t - 1) as nat);
    }
}

proof fn lemma_nth_on(n: int, i: int, s: nat, t: nat)
    ensures
        nth(n, nth(n, i, s), t) == nth(n, i, s + t),
    decreases t,
{
    if t > 0 {
        lemma_nth_on(n, i, s, (t - 1) as nat);
    }
}

/// Two rings that share a side go on alike.
proof fn lemma_go_on(f: Region, p: Seq<Coord>, i: int, q: Seq<Coord>, j: int, t: nat)
    requires
        runs_along(f, p),
        runs_along(f, q),
        0 <= i < side_count(p),
        0 <= j < side_count(q),
        side_at(p, i) == side_at(q, j),
    ensures
        side_at(p, nth(side_count(p), i, t)) == side_at(q, nth(side_count(q), j, t)),
    decreases t,
{
    if t > 0 {
        lemma_go_on(f, p, i, q, j, (t - 1) as nat);
        lemma_nth(side_count(p), i, (t - 1) as nat);
        lemma_nth(side_count(q), j, (t - 1) as nat);
        lemma_next_side(
            f,
            p,
            nth(side_count(p), i, (t - 1) as nat),
            q,
            nth(side_count(q), j, (t - 1) as nat),
        );
    }
}

/// A level side runs along the step at its left end.
pub proof fn lemma_left_step(f: Region, e: Edge)
    requires
        borders(e, f),
        e.start.y == e.end.y,
    ensures
        hseg(e, left_end(e), e.start.y as int) != 0,
        step_h(f, left_end(e), e.start.y as int) != 0,
{
    assert(straight(e));
    assert(hseg(e, left_end(e), e.start.y as int) != 0);
}

/// Two rings along one region that share the first side of one of them are the
/// same ring, from the same corner on.
proof fn lemma_same_ring(f: Region, p: Seq<Coord>, q: Seq<Coord>, j: int)
    requires
        runs_along(f, p),
        runs_along(f, q),
        0 <= j < side_count(q),
        side_at(p, 0) == side_at(q, j),
    ensures
        p == q,
{
    let n = side_count(p);
    let m = side_count(q);
    // The first side of the other is one of this one's.
    let t = (m - j) as nat;
    lemma_nth(m, j, t);
    lemma_nth(n, 0, t);
    lemma_go_on(f, p, 0, q, j, t);
    let a = side_at(p, 0);
    let b = side_at(q, 0);
    let u = nth(n, 0, t);
    assert(side_at(p, u) == b);
    assert(borders(side_at(p, 0), f) && borders(side_at(q, 0), f));
    assert(comes_before(a, side_at(p, u)));
    assert(comes_before(b, side_at(q, j)));
    lemma_left_step(f, a);
    lemma_left_step(f, b);
    lemma_same_side(f, p, 0, q, 0, left_end(a), a.start.y as int);
    // From there on they agree, and neither comes back before the other.
    if n < m {
        lemma_nth(n, 0, n as nat);
        lemma_nth(m, 0, n as nat);
        lemma_go_on(f, p, 0, q, 0, n as nat);
        assert(side_at(q, 0) != side_at(q, n));
    }
    if m < n {
        lemma_nth(n, 0, m as nat);
        lemma_nth(m, 0, m as nat);
        lemma_go_on(f, p, 0, q, 0, m as nat);
        assert(side_at(p, 0) != side_at(p, m));
    }
    assert forall|i: int| 0 <= i < p.len() implies p[i] == q[i] by {
        if i < n {
            lemma_nth(n, 0, i as nat);
            lemma_nth(m, 0, i as nat);
            lemma_go_on(f, p, 0, q, 0, i as nat);
            assert(side_at(p, i) == side_at(q, i));
        }
    }
    assert(p =~= q);
}

/// Rings that come in order, and are the same, come in the same order.
proof fn lemma_same_order(a: Seq<Seq<Coord>>, b: Seq<Seq<Coord>>, n: int)
    requires
        forall|i: int, j: int|
            #![trigger a[i], a[j]]
            0 <= i < j < a.len() ==> starts_before(a[i], a[j]),
        forall|i: int, j: int|
            #![trigger b[i], b[j]]
            0 <= i < j < b.len() ==> starts_before(b[i], b[j]),
        forall|i: int| 0 <= i < a.len() ==> b.contains(#[trigger] a[i]),
        forall|i: int| 0 <= i < b.len() ==> a.contains(#[trigger] b[i]),
        0 <= n <= a.len(),
    ensures
        n <= b.len(),
        forall|i: int| 0 <= i < n ==> a[i] == #[trigger] b[i],
    decreases n,
{
    if n > 0 {
        lemma_same_order(a, b, n - 1);
        let k = n - 1;
        assert(b.contains(a[k]));
        let l = choose|l: int| 0 <= l < b.len() && b[l] == a[k];
        if l < k {
            assert(a[l] == b[l]);
            assert(starts_before(a[l], a[k]));
            assert(false);
        }
        if l > k {
            assert(starts_before(b[k], b[l]));
            assert(a.contains(b[k]));
            let h = choose|h: int| 0 <= h < a.len() && a[h] == b[k];
            if h < k {
                assert(a[h] == b[h]);
                assert(starts_before(b[h], b[k]));
            } else if h > k {
                assert(starts_before(a[k], a[h]));
            }
            assert(false);
        }
    }
}

/// What one outline of a region has as a ring, every other has too.
proof fn lemma_ring_found(f: Region, p: Seq<Polygon>, q: Seq<Polygon>, k: int, j: int) -> (r: (
    int,
    int,
))
    requires
        outlines_region(f, p),
        outlines_region(f, q),
        0 <= k < p.len(),
        0 <= j < ring_count(p[k]),
    ensures
        0 <= r.0 < q.len(),
        0 <= r.1 < ring_count(q[r.0]),
        ring_at(q[r.0], r.1) == ring_at(p[k], j),
{
    let ring = ring_at(p[k], j);
    assert(runs_along(f, ring_at(p[k], j)));
    let e = side_at(ring, 0);
    assert(borders(side_at(ring, 0), f));
    lemma_left_step(f, e);
    let x = left_end(e);
    let y = e.start.y as int;
    assert(step_h(f, x, y) != 0);
    let (l, h, i) = choose|l: int, h: int, i: int| #[trigger] level_at(q, l, h, i, x, y);
    let other = ring_at(q[l], h);
    assert(runs_along(f, ring_at(q[l], h)));
    lemma_same_side(f, ring, 0, other, i, x, y);
    lemma_same_ring(f, ring, other, i);
    (l, h)
}

/// The exteriors of polygons.
spec fn exteriors(polygons: Seq<Polygon>) -> Seq<Seq<Coord>> {
    polygons.map_values(|p: Polygon| p.exterior.0@)
}

proof fn lemma_exterior_found(f: Region, p: Seq<Polygon>, q: Seq<Polygon>, k: int)
    requires
        outlines_region(f, p),
        outlines_region(f, q),
        forall|i: int| 0 <= i < p.len() ==> polygon_shape(#[trigger] p[i]),
        forall|i: int| 0 <= i < q.len() ==> polygon_shape(#[trigger] q[i]),
        0 <= k < p.len(),
    ensures
        exteriors(q).contains(exteriors(p)[k]),
{
    let (l, h) = lemma_ring_found(f, p, q, k, 0);
    assert(polygon_shape(p[k]) && polygon_shape(q[l]));
    if h > 0 {
        assert(crate::geometry::doubled_area(q[l].interiors@[h - 1].0@) < 0);
    }
    assert(exteriors(q)[l] == exteriors(p)[k]);
}

/// A hole stands in the polygon with the same exterior.
proof fn lemma_hole_found(f: Region, p: Seq<Polygon>, q: Seq<Polygon>, k: int, i: int)
    requires
        outlines_region(f, p),
        outlines_region(f, q),
        forall|i: int|
            0 <= i < p.len() ==> polygon_shape(#[trigger] p[i]) && covers_piece(f, p[i]),
        forall|i: int|
            0 <= i < q.len() ==> polygon_shape(#[trigger] q[i]) && covers_piece(f, q[i]),
        forall|j: int, k: int, x: int, y: int|
            0 <= j < q.len() && 0 <= k < q.len() && #[trigger] polygon_covers(q[j], x, y)
                && #[trigger] polygon_covers(q[k], x, y) ==> j == k,
        0 <= k < p.len(),
        k < q.len(),
        p[k].exterior.0@ == q[k].exterior.0@,
        0 <= i < p[k].interiors@.len(),
    ensures
        rings_view(q[k].interiors@).contains(rings_view(p[k].interiors@)[i]),
{
    let (l, h) = lemma_ring_found(f, p, q, k, i + 1);
    assert(polygon_shape(p[k]) && polygon_shape(q[l]));
    assert(crate::geometry::doubled_area(p[k].interiors@[i].0@) < 0);
    assert(h > 0);
    let c = right_cell(side_at(ring_at(p[k], i + 1), 0), 0);
    let e = right_cell(side_at(ring_at(p[k], 0), 0), 0);
    assert(runs_along(f, ring_at(p[k], i + 1)) && covers_beside(p[k], i + 1));
    assert(runs_along(f, ring_at(p[k], 0)) && covers_beside(p[k], 0));
    assert(runs_along(f, ring_at(q[l], h)) && covers_beside(q[l], h));
    assert(runs_along(f, ring_at(q[k], 0)) && covers_beside(q[k], 0));
    assert(covers_piece(f, p[k]) && covers_piece(f, q[k]));
    assert(polygon_covers(p[k], e.0, e.1) && polygon_covers(p[k], c.0, c.1));
    assert(connected(f, e, c));
    assert(polygon_covers(q[k], e.0, e.1));
    assert(polygon_covers(q[k], c.0, c.1));
    assert(polygon_covers(q[l], c.0, c.1));
    assert(l == k);
    assert(rings_view(q[k].interiors@)[h - 1] == rings_view(p[k].interiors@)[i]);
}

/// A region has one outline: two lists of polygons that outline it, each polygon one
/// piece of it, list the same rings from the same corners on, in the same order.
pub proof fn lemma_one_outline(f: Region, p: Seq<Polygon>, q: Seq<Polygon>)
    requires
        outlines_region(f, p),
        outlines_region(f, q),
        forall|i: int|
            0 <= i < p.len() ==> polygon_shape(#[trigger] p[i]) && covers_piece(f, p[i]),
        forall|i: int|
            0 <= i < q.len() ==> polygon_shape(#[trigger] q[i]) && covers_piece(f, q[i]),
        forall|j: int, k: int, x: int, y: int|
            0 <= j < p.len() && 0 <= k < p.len() && #[trigger] polygon_covers(p[j], x, y)
                && #[trigger] polygon_covers(p[k], x, y) ==> j == k,
        forall|j: int, k: int, x: int, y: int|
            0 <= j < q.len() && 0 <= k < q.len() && #[trigger] polygon_covers(q[j], x, y)
                && #[trigger] polygon_covers(q[k], x, y) ==> j == k,
    ensures
        polygons_view(p) == polygons_view(q),
{
    let a = exteriors(p);
    let b = exteriors(q);
    assert forall|i: int, j: int|
        #![trigger a[i], a[j]]
        0 <= i < j < a.len() implies starts_before(a[i], a[j]) by {
        assert(starts_before(p[i].exterior.0@, p[j].exterior.0@));
    }
    assert forall|i: int, j: int|
        #![trigger b[i], b[j]]
        0 <= i < j < b.len() implies starts_before(b[i], b[j]) by {
        assert(starts_before(q[i].exterior.0@, q[j].exterior.0@));
    }
    assert forall|i: int| 0 <= i < a.len() implies b.contains(#[trigger] a[i]) by {
        lemma_exterior_found(f, p, q, i);
    }
    assert forall|i: int| 0 <= i < b.len() implies a.contains(#[trigger] b[i]) by {
        lemma_exterior_found(f, q, p, i);
    }
    lemma_same_order(a, b, a.len() as int);
    lemma_same_order(b, a, b.len() as int);
    assert forall|k: int| 0 <= k < p.len() implies polygons_view(p)[k] == polygons_view(q)[k] by {
        assert(a[k] == b[k]);
        let c = rings_view(p[k].interiors@);
        let d = rings_view(q[k].interiors@);
        assert forall|i: int, j: int|
            #![trigger c[i], c[j]]
            0 <= i < j < c.len() implies starts_before(c[i], c[j]) by {
            assert(starts_before(p[k].interiors@[i].0@, p[k].interiors@[j].0@));
        }
        assert forall|i: int, j: int|
            #![trigger d[i], d[j]]
            0 <= i < j < d.len() implies starts_before(d[i], d[j]) by {
            assert(starts_before(q[k].interiors@[i].0@, q[k].interiors@[j].0@));
        }
        assert forall|i: int| 0 <= i < c.len() implies d.contains(#[trigger] c[i]) by {
            lemma_hole_found(f, p, q, k, i);
        }
        assert forall|i: int| 0 <= i < d.len() implies c.contains(#[trigger] d[i]) by {
            lemma_hole_found(f, q, p, k, i);
        }
        lemma_same_order(c, d, c.len() as int);
        lemma_same_order(d, c, d.len() as int);
        assert(c =~= d);
    }
    assert(polygons_view(p) =~= polygons_view(q));
}

} // verus!
