//! From traced edges to polygons: the outlines wind as their rings do, so what
//! is proved of rings of edges holds of the polygons made of the outlines.

use vstd::prelude::*;

use crate::area::{high, low, plane_sum, ring_area};
use crate::area::{lemma_area_sign, lemma_green, lemma_plane_add, lemma_plane_same};
use crate::boundary::{
    borders, boundary, comes_before, edge_crossing, hseg, inside, leads, outer, ring_h, ring_ok,
    ring_v, ring_w, sharp, step_h, step_v, straight, total_h, total_v, total_w, vseg, Edge, Region,
};
use crate::boundary::{
    lemma_has_outer, lemma_outside_box, lemma_sample, lemma_total, lemma_values,
};
use crate::connection::{connected, lemma_connected_in};
use crate::contour::{
    additive, bounds_region, closes, directed, on_the_way, outlines, rectilinear, rings_sum, starts_at,
    traced,
};
use crate::geometry::{
    closed, cross_product, crossing, doubled_area, encloses, lemma_closed_sum, polygon_covers,
    step_sum, winding, Coord, LineString, Polygon,
};
use crate::nesting::{fills, lemma_filled_once, lemma_polygons_fill, owned};
use crate::pieces::{in_pieces, lemma_fills_piece};
use crate::polygons::{
    assembled, exterior_ids, goes_around, has_holder, held, hole_ids, holder, in_bounds,
};
use crate::polygons::{
    lemma_exterior_ids, lemma_exterior_listed, lemma_hole_ids, lemma_hole_listed,
};
use crate::sums::{ind, indices, sum};
use crate::sums::{
    lemma_sum_change, lemma_sum_indices, lemma_sum_match, lemma_sum_push, lemma_sum_same,
    lemma_sum_scale, lemma_sum_split, lemma_sum_zero,
};

verus! {

/// The edges come in the order in which a sweep from the top draws them.
pub open spec fn in_sweep_order(edges: Seq<Edge>) -> bool {
    forall|i: int, j: int|
        #![trigger edges[i], edges[j]]
        0 <= i <= j < edges.len() ==> comes_before(edges[i], edges[j])
}

/// Every level edge goes as far as it can.
pub open spec fn all_sharp(edges: Seq<Edge>, f: Region) -> bool {
    forall|i: int| 0 <= i < edges.len() ==> sharp(#[trigger] edges[i], f)
}

/// Nothing of the region lies beyond the greatest column.
pub open spec fn bounded(f: Region) -> bool {
    forall|x: int, y: int| x >= i32::MAX ==> !#[trigger] f(x, y)
}

/// The edges were traced into contours that outline the rings, and are the
/// boundary of a region.
pub open spec fn outlined(
    edges: Seq<Edge>,
    rings: Seq<Seq<Edge>>,
    contours: Seq<LineString>,
    f: Region,
) -> bool {
    &&& traced(edges, rings, contours)
    &&& bounds_region(edges, f)
    &&& in_sweep_order(edges)
    &&& all_sharp(edges, f)
    &&& forall|i: int| 0 <= i < edges.len() ==> directed(#[trigger] edges[i])
    &&& bounded(f)
}

pub proof fn lemma_rings_bound(
    edges: Seq<Edge>,
    rings: Seq<Seq<Edge>>,
    contours: Seq<LineString>,
    f: Region,
)
    requires
        outlined(edges, rings, contours, f),
    ensures
        boundary(rings, f),
        in_pieces(rings, f),
        forall|k: int| 0 <= k < rings.len() ==> leads(#[trigger] rings[k]),
{
    assert forall|k: int, i: int|
        0 <= k < rings.len() && 0 <= i < rings[k].len() implies borders(#[trigger] rings[k][i], f) by {
        assert(closes(edges, rings[k]));
        let m = choose|m: int| #[trigger] starts_at(edges, rings[k], m);
        let n = choose|n: int| m <= n < edges.len() && edges[n] == rings[k][i];
        assert(borders(edges[n], f));
    }
    assert forall|k: int| 0 <= k < rings.len() implies ring_ok(#[trigger] rings[k]) && leads(
        rings[k],
    ) by {
        let r = rings[k];
        assert(closes(edges, rings[k]));
        let m = choose|m: int| #[trigger] starts_at(edges, r, m);
        assert forall|i: int| 0 <= i < r.len() implies straight(#[trigger] r[i]) && comes_before(
            r[0],
            r[i],
        ) by {
            assert(borders(rings[k][i], f));
            let n = choose|n: int| m <= n < edges.len() && edges[n] == r[i];
            assert(comes_before(edges[m], edges[n]));
        }
    }
    assert forall|x: int, y: int| #[trigger] total_v(rings, x, y) == step_v(f, x, y) by {
        let g = |e: Edge| vseg(e, x, y);
        assert(sum(edges, g) == rings_sum(rings, g));
        assert(ring_v(edges, x, y) == step_v(f, x, y));
        lemma_sum_same(
            rings,
            |r: Seq<Edge>| sum(r, g),
            |r: Seq<Edge>| ring_v(r, x, y),
        );
    }
    assert forall|x: int, y: int| #[trigger] total_h(rings, x, y) == step_h(f, x, y) by {
        let g = |e: Edge| hseg(e, x, y);
        assert(sum(edges, g) == rings_sum(rings, g));
        assert(ring_h(edges, x, y) == step_h(f, x, y));
        lemma_sum_same(
            rings,
            |r: Seq<Edge>| sum(r, g),
            |r: Seq<Edge>| ring_h(r, x, y),
        );
    }
}

/// An outline winds as its ring does.
proof fn lemma_same_winding(points: Seq<Coord>, r: Seq<Edge>, x: int, y: int)
    requires
        outlines(points, r),
    ensures
        winding(points, x, y) == ring_w(r, x, y),
{
    let f = |p: Coord, q: Coord| crossing(p, q, x, y);
    assert(additive(f));
    assert(step_sum(points, points.len(), f) == sum(r, |e: Edge| f(e.start, e.end)));
    lemma_sum_same(r, |e: Edge| f(e.start, e.end), |e: Edge| edge_crossing(e, x, y));
}

/// And it has the same area.
proof fn lemma_same_area(points: Seq<Coord>, r: Seq<Edge>)
    requires
        outlines(points, r),
    ensures
        doubled_area(points) == ring_area(r),
{
    let f = |p: Coord, q: Coord| cross_product(p, q);
    assert(additive(f)) by {
        assert forall|p: Coord, q: Coord, s: Coord| #[trigger] on_the_way(p, q, s) implies f(p, q)
            + f(q, s) == f(p, s) by {
            let (a, b, c, d, e, g) = (
                p.x as int,
                p.y as int,
                q.x as int,
                q.y as int,
                s.x as int,
                s.y as int,
            );
            assert((a * d - b * c) + (c * g - d * e) == a * g - b * e) by (nonlinear_arith)
                requires
                    (a == c && c == e) || (b == d && d == g),
            ;
        }
    }
    assert(step_sum(points, points.len(), f) == sum(r, |e: Edge| f(e.start, e.end)));
    lemma_sum_same(r, |e: Edge| f(e.start, e.end), |e: Edge| cross_product(e.start, e.end));
}

/// Closing a ring changes neither what it encloses nor its area.
pub proof fn lemma_closed_same(points: Seq<Coord>, x: int, y: int)
    ensures
        winding(closed(points), x, y) == winding(points, x, y),
        doubled_area(closed(points)) == doubled_area(points),
{
    lemma_closed_sum(points, |p: Coord, q: Coord| crossing(p, q, x, y));
    let area = |p: Coord, q: Coord| cross_product(p, q);
    assert forall|p: Coord| #[trigger] area(p, p) == 0 by {
        assert(p.x * p.y == p.y * p.x) by (nonlinear_arith);
    }
    lemma_closed_sum(points, area);
}

/// The steps of a ring as edges.
spec fn steps(points: Seq<Coord>, n: nat) -> Seq<Edge> {
    let q = points.push(points[0]);
    Seq::new(n, |i: int| Edge { start: q[i], end: q[i + 1], direction: 0 })
}

proof fn lemma_steps_sum(points: Seq<Coord>, n: nat, x: int, y: int)
    requires
        n <= points.len(),
    ensures
        step_sum(points, n, |p: Coord, q: Coord| crossing(p, q, x, y)) == ring_w(
            steps(points, n),
            x,
            y,
        ),
    decreases n,
{
    let f = |p: Coord, q: Coord| crossing(p, q, x, y);
    if n > 0 {
        lemma_steps_sum(points, (n - 1) as nat, x, y);
        let s = steps(points, n);
        assert(s.drop_last() =~= steps(points, (n - 1) as nat));
        let m = n as int;
        let len = points.len() as int;
        if m < len {
            assert(m % len == m) by (nonlinear_arith)
                requires
                    0 < m < len,
            ;
        } else {
            assert(m % len == 0) by (nonlinear_arith)
                requires
                    m == len,
                    m > 0,
            ;
        }
        assert(s.last() == Edge { start: points[m - 1], end: points[m % len], direction: 0 });
    }
}

/// What a rectilinear ring encloses lies in the box around it.
proof fn lemma_enclosed_in_bounds(points: Seq<Coord>, p: Coord)
    requires
        points.len() > 0,
        rectilinear(points.push(points[0])),
        winding(points, p.x as int, p.y as int) != 0,
    ensures
        in_bounds(points, p),
{
    let x = p.x as int;
    let y = p.y as int;
    let n = points.len();
    let r = steps(points, n);
    let q = points.push(points[0]);
    lemma_steps_sum(points, n, x, y);
    assert forall|i: int| 0 <= i < r.len() implies straight(#[trigger] r[i]) by {
        assert(q[i] != q[i + 1]);
    }
    assert(r[0].start == points[0]);
    assert(r.last() == r[n - 1]);
    assert(r[n - 1].end == q[n as int]);
    assert(ring_ok(r));
    let lo = low();
    let hi = high();
    assert forall|i: int| 0 <= i <= n implies exists|k: int|
        0 <= k < n && points[k] == #[trigger] q[i] by {
        if i < n {
            assert(points[i] == q[i]);
        } else {
            assert(points[0] == q[i]);
        }
    }
    if forall|i: int| 0 <= i < n ==> (#[trigger] points[i]).x > p.x {
        assert forall|i: int| 0 <= i < r.len() implies (#[trigger] r[i]).start.x >= x + 1
            && r[i].end.x >= x + 1 by {
            assert(r[i].start == q[i] && r[i].end == q[i + 1]);
        }
        lemma_outside_box(r, x + 1, lo, hi, hi, x, y);
    }
    if forall|i: int| 0 <= i < n ==> (#[trigger] points[i]).x < p.x {
        assert forall|i: int| 0 <= i < r.len() implies (#[trigger] r[i]).start.x <= x - 1
            && r[i].end.x <= x - 1 by {
            assert(r[i].start == q[i] && r[i].end == q[i + 1]);
        }
        lemma_outside_box(r, lo, lo, x - 1, hi, x, y);
    }
    if forall|i: int| 0 <= i < n ==> (#[trigger] points[i]).y > p.y {
        assert forall|i: int| 0 <= i < r.len() implies (#[trigger] r[i]).start.y >= y + 1
            && r[i].end.y >= y + 1 by {
            assert(r[i].start == q[i] && r[i].end == q[i + 1]);
        }
        lemma_outside_box(r, lo, y + 1, hi, hi, x, y);
    }
    if forall|i: int| 0 <= i < n ==> (#[trigger] points[i]).y < p.y {
        assert forall|i: int| 0 <= i < r.len() implies (#[trigger] r[i]).start.y <= y - 1
            && r[i].end.y <= y - 1 by {
            assert(r[i].start == q[i] && r[i].end == q[i + 1]);
        }
        lemma_outside_box(r, lo, lo, hi, y - 1, x, y);
    }
}

/// What the outlines say of the rings: sign of the area, cells, and which outer
/// ring goes around the first corner of which inner one.
pub proof fn lemma_outline_facts(
    edges: Seq<Edge>,
    rings: Seq<Seq<Edge>>,
    contours: Seq<LineString>,
    f: Region,
)
    requires
        outlined(edges, rings, contours, f),
    ensures
        boundary(rings, f),
        forall|k: int|
            0 <= k < rings.len() ==> {
                &&& doubled_area((#[trigger] contours[k]).0@) == ring_area(rings[k])
                &&& outer(rings, k) ==> doubled_area(contours[k].0@) > 0
                &&& !outer(rings, k) ==> doubled_area(contours[k].0@) < 0
            },
        forall|k: int, x: int, y: int|
            0 <= k < rings.len() ==> #[trigger] winding(contours[k].0@, x, y) == ring_w(
                rings[k],
                x,
                y,
            ) && (encloses(contours[k].0@, x, y) <==> ring_w(rings[k], x, y) != 0),
        forall|k: int, h: int|
            0 <= k < rings.len() && 0 <= h < rings.len() && k != h ==> #[trigger] goes_around(
                contours[k].0@,
                contours[h].0@[0],
            ) == inside(rings, h, k),
{
    lemma_rings_bound(edges, rings, contours, f);
    assert forall|k: int| 0 <= k < rings.len() implies {
        &&& doubled_area((#[trigger] contours[k]).0@) == ring_area(rings[k])
        &&& outer(rings, k) ==> doubled_area(contours[k].0@) > 0
        &&& !outer(rings, k) ==> doubled_area(contours[k].0@) < 0
    } by {
        lemma_same_area(contours[k].0@, rings[k]);
        lemma_area_sign(rings, f, k);
    }
    assert forall|k: int, x: int, y: int|
        0 <= k < rings.len() implies #[trigger] winding(contours[k].0@, x, y) == ring_w(
        rings[k],
        x,
        y,
    ) && (encloses(contours[k].0@, x, y) <==> ring_w(rings[k], x, y) != 0) by {
        assert(outlines(contours[k].0@, rings[k]));
        lemma_same_winding(contours[k].0@, rings[k], x, y);
        lemma_values(rings, f, k, x, y);
    }
    assert forall|k: int, h: int|
        0 <= k < rings.len() && 0 <= h < rings.len() && k != h implies #[trigger] goes_around(
        contours[k].0@,
        contours[h].0@[0],
    ) == inside(rings, h, k) by {
        assert(outlines(contours[k].0@, rings[k]) && outlines(contours[h].0@, rings[h]));
        let p = contours[h].0@[0];
        assert(p == rings[h][0].start);
        assert(leads(rings[h]));
        lemma_sample(rings, f, h, k);
        assert(winding(contours[k].0@, p.x as int, p.y as int) == ring_w(
            rings[k],
            p.x as int,
            p.y as int,
        ));
        if ring_w(rings[k], p.x as int, p.y as int) != 0 {
            lemma_enclosed_in_bounds(contours[k].0@, p);
        }
    }
}

/// Every contour has an area, and every hole an exterior around it.
pub proof fn lemma_assembles(
    edges: Seq<Edge>,
    rings: Seq<Seq<Edge>>,
    contours: Seq<LineString>,
    f: Region,
)
    requires
        outlined(edges, rings, contours, f),
    ensures
        forall|k: int| 0 <= k < contours.len() ==> doubled_area((#[trigger] contours[k]).0@) != 0,
        forall|k: int|
            0 <= k < contours.len() && doubled_area((#[trigger] contours[k]).0@) < 0 ==> has_holder(
                contours,
                exterior_ids(contours, contours.len()),
                contours[k].0@[0],
            ),
{
    lemma_outline_facts(edges, rings, contours, f);
    let ids = exterior_ids(contours, contours.len());
    assert forall|k: int|
        0 <= k < contours.len() && doubled_area((#[trigger] contours[k]).0@) < 0 implies has_holder(
        contours,
        ids,
        contours[k].0@[0],
    ) by {
        let e = lemma_has_outer(rings, f, k);
        assert(doubled_area(contours[e].0@) > 0);
        let j = lemma_exterior_listed(contours, contours.len(), e);
        assert(goes_around(contours[e].0@, contours[k].0@[0]));
        assert(goes_around(contours[ids[j]].0@, contours[k].0@[0]));
    }
}

/// The number of the exterior that holds a hole.
pub open spec fn holder_of(contours: Seq<LineString>, h: int) -> int {
    choose|k: int|
        holder(contours, exterior_ids(contours, contours.len()), contours[h].0@[0], k)
}

/// Of finitely many exteriors around a point, one is the first of the smallest.
proof fn lemma_holder_exists(contours: Seq<LineString>, ids: Seq<int>, p: Coord, n: int) -> (k: int)
    requires
        0 <= n <= ids.len(),
        exists|j: int| 0 <= j < n && goes_around(contours[#[trigger] ids[j]].0@, p),
    ensures
        0 <= k < n,
        goes_around(contours[ids[k]].0@, p),
        forall|j: int|
            0 <= j < n && goes_around(contours[#[trigger] ids[j]].0@, p) ==> {
                let a = doubled_area(contours[ids[k]].0@);
                let b = doubled_area(contours[ids[j]].0@);
                a < b || (a == b && k <= j)
            },
    decreases n,
{
    if exists|j: int| 0 <= j < n - 1 && goes_around(contours[#[trigger] ids[j]].0@, p) {
        let k = lemma_holder_exists(contours, ids, p, n - 1);
        if goes_around(contours[ids[n - 1]].0@, p) && doubled_area(contours[ids[n - 1]].0@)
            < doubled_area(contours[ids[k]].0@) {
            n - 1
        } else {
            k
        }
    } else {
        n - 1
    }
}

pub proof fn lemma_one_holder(contours: Seq<LineString>, ids: Seq<int>, p: Coord, j: int, k: int)
    requires
        holder(contours, ids, p, j),
        holder(contours, ids, p, k),
    ensures
        j == k,
{
    assert(goes_around(contours[ids[j]].0@, p));
    assert(goes_around(contours[ids[k]].0@, p));
}

/// The ring that owns an inner ring, by way of the exteriors' numbers.
pub open spec fn owner_fn(contours: Seq<LineString>) -> spec_fn(int) -> int {
    |h: int| exterior_ids(contours, contours.len())[holder_of(contours, h)]
}

pub proof fn lemma_owned(
    edges: Seq<Edge>,
    rings: Seq<Seq<Edge>>,
    contours: Seq<LineString>,
    f: Region,
)
    requires
        outlined(edges, rings, contours, f),
    ensures
        owned(rings, owner_fn(contours)),
        forall|h: int|
            0 <= h < rings.len() && !outer(rings, h) ==> holder(
                contours,
                exterior_ids(contours, contours.len()),
                contours[h].0@[0],
                #[trigger] holder_of(contours, h),
            ),
{
    lemma_outline_facts(edges, rings, contours, f);
    lemma_assembles(edges, rings, contours, f);
    let ids = exterior_ids(contours, contours.len());
    let owner = owner_fn(contours);
    assert forall|h: int| 0 <= h < rings.len() && !outer(rings, h) implies holder(
        contours,
        ids,
        contours[h].0@[0],
        #[trigger] holder_of(contours, h),
    ) by {
        assert(doubled_area(contours[h].0@) < 0);
        let k = lemma_holder_exists(contours, ids, contours[h].0@[0], ids.len() as int);
        assert(holder(contours, ids, contours[h].0@[0], k));
    }
    assert forall|h: int| 0 <= h < rings.len() && !outer(rings, h) implies {
        let o = #[trigger] owner(h);
        &&& 0 <= o < rings.len()
        &&& outer(rings, o)
        &&& inside(rings, h, o)
        &&& forall|k: int|
            0 <= k < rings.len() && #[trigger] outer(rings, k) && inside(rings, h, k) ==> ring_area(
                rings[o],
            ) <= ring_area(rings[k])
    } by {
        let i = holder_of(contours, h);
        let o = ids[i];
        lemma_exterior_ids(contours, contours.len(), i);
        assert(doubled_area(contours[o].0@) > 0);
        assert(o != h);
        assert(goes_around(contours[o].0@, contours[h].0@[0]));
        assert forall|k: int|
            0 <= k < rings.len() && #[trigger] outer(rings, k) && inside(rings, h, k) implies ring_area(
            rings[o],
        ) <= ring_area(rings[k]) by {
            assert(doubled_area(contours[k].0@) > 0);
            let j = lemma_exterior_listed(contours, contours.len(), k);
            assert(k != h);
            assert(goes_around(contours[k].0@, contours[h].0@[0]));
            assert(goes_around(contours[ids[j]].0@, contours[h].0@[0]));
        }
    }
}

/// What is listed as held by an exterior is a hole that it holds.
pub proof fn lemma_held_is(
    contours: Seq<LineString>,
    ids: Seq<int>,
    holes: Seq<int>,
    k: int,
    n: nat,
    i: int,
) -> (j: int)
    requires
        n <= holes.len(),
        0 <= i < held(contours, ids, holes, k, n).len(),
    ensures
        0 <= j < n,
        holes[j] == held(contours, ids, holes, k, n)[i],
        holder(contours, ids, contours[holes[j]].0@[0], k),
    decreases n,
{
    let shorter = held(contours, ids, holes, k, (n - 1) as nat);
    if i < shorter.len() {
        lemma_held_is(contours, ids, holes, k, (n - 1) as nat, i)
    } else {
        n - 1
    }
}

pub proof fn lemma_held_has(
    contours: Seq<LineString>,
    ids: Seq<int>,
    holes: Seq<int>,
    k: int,
    n: nat,
    j: int,
) -> (i: int)
    requires
        n <= holes.len(),
        0 <= j < n,
        holder(contours, ids, contours[holes[j]].0@[0], k),
    ensures
        0 <= i < held(contours, ids, holes, k, n).len(),
        holes[j] == held(contours, ids, holes, k, n)[i],
    decreases n,
{
    let shorter = held(contours, ids, holes, k, (n - 1) as nat);
    if j == n - 1 {
        shorter.len() as int
    } else {
        lemma_held_has(contours, ids, holes, k, (n - 1) as nat, j)
    }
}

/// A polygon covers the cells that its ring fills.
pub proof fn lemma_covers_filled(
    edges: Seq<Edge>,
    rings: Seq<Seq<Edge>>,
    contours: Seq<LineString>,
    polygons: Seq<Polygon>,
    f: Region,
    k: int,
    x: int,
    y: int,
)
    requires
        outlined(edges, rings, contours, f),
        assembled(contours, polygons),
        0 <= k < polygons.len(),
    ensures
        polygon_covers(polygons[k], x, y) == fills(
            rings,
            owner_fn(contours),
            exterior_ids(contours, contours.len())[k],
            x,
            y,
        ),
{
    lemma_outline_facts(edges, rings, contours, f);
    lemma_owned(edges, rings, contours, f);
    let ids = exterior_ids(contours, contours.len());
    let holes = hole_ids(contours, contours.len());
    let owner = owner_fn(contours);
    let o = ids[k];
    lemma_exterior_ids(contours, contours.len(), k);
    assert(doubled_area(contours[o].0@) > 0);
    assert(outer(rings, o));
    lemma_closed_same(contours[o].0@, x, y);
    assert(winding(contours[o].0@, x, y) == ring_w(rings[o], x, y));
    let own = held(contours, ids, holes, k, holes.len());
    if fills(rings, owner, o, x, y) {
        assert forall|i: int| 0 <= i < polygons[k].interiors@.len() implies !encloses(
            (#[trigger] polygons[k].interiors@[i]).0@,
            x,
            y,
        ) by {
            let j = lemma_held_is(contours, ids, holes, k, holes.len(), i);
            let h = holes[j];
            lemma_hole_ids(contours, contours.len(), j);
            assert(doubled_area(contours[h].0@) < 0);
            assert(!outer(rings, h));
            assert(holder(contours, ids, contours[h].0@[0], holder_of(contours, h)));
            lemma_one_holder(contours, ids, contours[h].0@[0], holder_of(contours, h), k);
            assert(owner(h) == o);
            assert(winding(contours[h].0@, x, y) == ring_w(rings[h], x, y));
            lemma_closed_same(contours[h].0@, x, y);
        }
    }
    if polygon_covers(polygons[k], x, y) {
        assert forall|h: int|
            0 <= h < rings.len() && !#[trigger] outer(rings, h) && owner(h) == o implies ring_w(
            rings[h],
            x,
            y,
        ) == 0 by {
            assert(doubled_area(contours[h].0@) < 0);
            let j = lemma_hole_listed(contours, contours.len(), h);
            let q = holder_of(contours, h);
            assert(holder(contours, ids, contours[h].0@[0], q));
            lemma_ids_distinct(contours, contours.len(), q, k);
            let i = lemma_held_has(contours, ids, holes, k, holes.len(), j);
            assert(polygons[k].interiors@[i].0@ == closed(contours[own[i]].0@));
            lemma_closed_same(contours[h].0@, x, y);
            assert(winding(contours[h].0@, x, y) == ring_w(rings[h], x, y));
        }
    }
}

/// No ring is listed twice.
pub proof fn lemma_ids_distinct(contours: Seq<LineString>, n: nat, i: int, j: int)
    requires
        n <= contours.len(),
        0 <= i < exterior_ids(contours, n).len(),
        0 <= j < exterior_ids(contours, n).len(),
        exterior_ids(contours, n)[i] == exterior_ids(contours, n)[j],
    ensures
        i == j,
    decreases n,
{
    if n > 0 {
        let shorter = exterior_ids(contours, (n - 1) as nat);
        if i < shorter.len() {
            lemma_exterior_ids(contours, (n - 1) as nat, i);
        }
        if j < shorter.len() {
            lemma_exterior_ids(contours, (n - 1) as nat, j);
        }
        if i < shorter.len() && j < shorter.len() {
            lemma_ids_distinct(contours, (n - 1) as nat, i, j);
        }
    }
}

/// The polygons cover exactly the region, and no cell of it twice.
pub proof fn lemma_polygons_cover(
    edges: Seq<Edge>,
    rings: Seq<Seq<Edge>>,
    contours: Seq<LineString>,
    polygons: Seq<Polygon>,
    f: Region,
)
    requires
        outlined(edges, rings, contours, f),
        assembled(contours, polygons),
    ensures
        forall|x: int, y: int| #[trigger]
            f(x, y) <==> exists|k: int|
                0 <= k < polygons.len() && polygon_covers(#[trigger] polygons[k], x, y),
        forall|j: int, k: int, x: int, y: int|
            0 <= j < polygons.len() && 0 <= k < polygons.len() && #[trigger] polygon_covers(
                polygons[j],
                x,
                y,
            ) && #[trigger] polygon_covers(polygons[k], x, y) ==> j == k,
{
    lemma_outline_facts(edges, rings, contours, f);
    lemma_owned(edges, rings, contours, f);
    let ids = exterior_ids(contours, contours.len());
    let owner = owner_fn(contours);
    assert forall|x: int, y: int| #[trigger] f(x, y) <==> exists|k: int|
        0 <= k < polygons.len() && polygon_covers(#[trigger] polygons[k], x, y) by {
        lemma_polygons_fill(rings, f, owner, x, y);
        if f(x, y) {
            let o = choose|o: int| fills(rings, owner, o, x, y);
            assert(doubled_area(contours[o].0@) > 0);
            let k = lemma_exterior_listed(contours, contours.len(), o);
            lemma_covers_filled(edges, rings, contours, polygons, f, k, x, y);
            assert(polygon_covers(polygons[k], x, y));
        } else if exists|k: int|
            0 <= k < polygons.len() && polygon_covers(#[trigger] polygons[k], x, y) {
            let k = choose|k: int|
                0 <= k < polygons.len() && polygon_covers(#[trigger] polygons[k], x, y);
            lemma_covers_filled(edges, rings, contours, polygons, f, k, x, y);
        }
    }
    assert forall|j: int, k: int, x: int, y: int|
        0 <= j < polygons.len() && 0 <= k < polygons.len() && #[trigger] polygon_covers(
            polygons[j],
            x,
            y,
        ) && #[trigger] polygon_covers(polygons[k], x, y) implies j == k by {
        lemma_covers_filled(edges, rings, contours, polygons, f, j, x, y);
        lemma_covers_filled(edges, rings, contours, polygons, f, k, x, y);
        lemma_filled_once(rings, f, owner, ids[j], ids[k], x, y);
        lemma_ids_distinct(contours, contours.len(), j, k);
    }
}

/// The polygon covers one whole piece of a region: with a cell, exactly those that
/// hang together with it.
pub open spec fn covers_piece(f: Region, polygon: Polygon) -> bool {
    forall|a: (int, int), b: (int, int)|
        #![trigger connected(f, a, b)]
        #![trigger polygon_covers(polygon, a.0, a.1), polygon_covers(polygon, b.0, b.1)]
        polygon_covers(polygon, a.0, a.1) ==> (polygon_covers(polygon, b.0, b.1) <==> connected(
            f,
            a,
            b,
        ))
}

/// Each polygon covers one piece of the region.
pub proof fn lemma_polygons_pieces(
    edges: Seq<Edge>,
    rings: Seq<Seq<Edge>>,
    contours: Seq<LineString>,
    polygons: Seq<Polygon>,
    f: Region,
)
    requires
        outlined(edges, rings, contours, f),
        assembled(contours, polygons),
    ensures
        forall|k: int| 0 <= k < polygons.len() ==> covers_piece(f, #[trigger] polygons[k]),
{
    lemma_rings_bound(edges, rings, contours, f);
    lemma_owned(edges, rings, contours, f);
    lemma_polygons_cover(edges, rings, contours, polygons, f);
    let ids = exterior_ids(contours, contours.len());
    let owner = owner_fn(contours);
    assert forall|k: int| 0 <= k < polygons.len() implies covers_piece(
        f,
        #[trigger] polygons[k],
    ) by {
        assert forall|a: (int, int), b: (int, int)|
            #![trigger connected(f, a, b)]
            #![trigger polygon_covers(polygons[k], a.0, a.1), polygon_covers(polygons[k], b.0, b.1)]
            polygon_covers(polygons[k], a.0, a.1) implies (polygon_covers(polygons[k], b.0, b.1)
            <==> connected(f, a, b)) by {
            lemma_covers_filled(edges, rings, contours, polygons, f, k, a.0, a.1);
            lemma_covers_filled(edges, rings, contours, polygons, f, k, b.0, b.1);
            assert(f(a.0, a.1));
            if f(b.0, b.1) {
                lemma_fills_piece(rings, f, owner, ids[k], a, b);
            } else if connected(f, a, b) {
                lemma_connected_in(f, a, b);
            }
        }
    }
}

/// Twice the area of a polygon: its exterior and, negative, its interiors.
pub open spec fn polygon_area(polygon: Polygon) -> int {
    doubled_area(polygon.exterior.0@) + sum(
        polygon.interiors@,
        |ring: LineString| doubled_area(ring.0@),
    )
}

pub open spec fn polygons_area(polygons: Seq<Polygon>) -> int {
    sum(polygons, |polygon: Polygon| polygon_area(polygon))
}

/// The number of cells in a region.
pub open spec fn cell_count(f: Region) -> int {
    plane_sum(|x: int, y: int| ind(f(x, y)))
}

proof fn lemma_plane_total(rings: Seq<Seq<Edge>>)
    ensures
        plane_sum(|x: int, y: int| total_w(rings, x, y)) == sum(
            rings,
            |r: Seq<Edge>| plane_sum(|x: int, y: int| ring_w(r, x, y)),
        ),
    decreases rings.len(),
{
    let all = |x: int, y: int| total_w(rings, x, y);
    let each = |r: Seq<Edge>| plane_sum(|x: int, y: int| ring_w(r, x, y));
    if rings.len() == 0 {
        crate::area::lemma_plane_scale(all, all, 0);
    } else {
        let rest = rings.drop_last();
        let last = rings.last();
        lemma_plane_total(rest);
        let a = |x: int, y: int| total_w(rest, x, y);
        let b = |x: int, y: int| ring_w(last, x, y);
        assert forall|x: int, y: int| #[trigger] all(x, y) == a(x, y) + b(x, y) by {
            lemma_sum_push(rest, last, |r: Seq<Edge>| ring_w(r, x, y));
            assert(rest.push(last) =~= rings);
        }
        lemma_plane_add(all, a, b);
    }
}

/// The areas of all contours add up to the cells of the region.
proof fn lemma_contours_area(
    edges: Seq<Edge>,
    rings: Seq<Seq<Edge>>,
    contours: Seq<LineString>,
    f: Region,
)
    requires
        outlined(edges, rings, contours, f),
    ensures
        sum(contours, |c: LineString| doubled_area(c.0@)) == 2 * cell_count(f),
{
    lemma_outline_facts(edges, rings, contours, f);
    let area = |c: LineString| doubled_area(c.0@);
    let ra = |r: Seq<Edge>| ring_area(r);
    let cells = |r: Seq<Edge>| plane_sum(|x: int, y: int| ring_w(r, x, y));
    assert forall|k: int|
        #![trigger contours[k]]
        #![trigger rings[k]]
        0 <= k < contours.len() implies area(contours[k]) == ra(rings[k]) by {
        assert(doubled_area(contours[k].0@) == ring_area(rings[k]));
    }
    lemma_sum_match(contours, rings, area, ra);
    assert forall|k: int| 0 <= k < rings.len() implies ra(#[trigger] rings[k]) == 2 * cells(
        rings[k],
    ) by {
        assert(ring_ok(rings[k]));
        lemma_green(rings[k]);
    }
    lemma_sum_scale(rings, ra, cells, 2);
    lemma_plane_total(rings);
    let total = |x: int, y: int| total_w(rings, x, y);
    let inner = |x: int, y: int| ind(f(x, y));
    assert forall|x: int, y: int| #[trigger] total(x, y) == inner(x, y) by {
        lemma_total(rings, f, x, y);
    }
    lemma_plane_same(total, inner);
}

spec fn area_of(contours: Seq<LineString>) -> spec_fn(int) -> int {
    |k: int| doubled_area(contours[k].0@)
}

/// Exteriors and holes are all there is.
proof fn lemma_ids_area(contours: Seq<LineString>, n: nat)
    requires
        n <= contours.len(),
    ensures
        sum(exterior_ids(contours, n), area_of(contours)) + sum(
            hole_ids(contours, n),
            area_of(contours),
        ) == sum(indices(n), area_of(contours)),
    decreases n,
{
    let a = area_of(contours);
    if n > 0 {
        let m = (n - 1) as nat;
        lemma_ids_area(contours, m);
        assert(indices(n).drop_last() =~= indices(m));
        assert(indices(n).last() == n - 1);
        lemma_sum_push(exterior_ids(contours, m), n - 1, a);
        lemma_sum_push(hole_ids(contours, m), n - 1, a);
    }
}

spec fn is_held(contours: Seq<LineString>, ids: Seq<int>, p: Coord) -> bool {
    exists|k: int| #[trigger] holder(contours, ids, p, k)
}

/// Each hole is held once.
proof fn lemma_held_area(contours: Seq<LineString>, ids: Seq<int>, holes: Seq<int>, n: nat)
    requires
        n <= holes.len(),
        forall|j: int|
            0 <= j < holes.len() ==> is_held(contours, ids, contours[#[trigger] holes[j]].0@[0]),
    ensures
        sum(
            indices(ids.len()),
            |k: int| sum(held(contours, ids, holes, k, n), area_of(contours)),
        ) == sum(holes.take(n as int), area_of(contours)),
    decreases n,
{
    let a = area_of(contours);
    let now = |k: int| sum(held(contours, ids, holes, k, n), a);
    let s = indices(ids.len());
    if n == 0 {
        lemma_sum_zero(s, now);
        assert(holes.take(0) =~= Seq::empty());
    } else {
        let m = (n - 1) as nat;
        lemma_held_area(contours, ids, holes, m);
        let before = |k: int| sum(held(contours, ids, holes, k, m), a);
        let h = holes[m as int];
        let p = contours[h].0@[0];
        assert(is_held(contours, ids, contours[holes[m as int]].0@[0]));
        let o = choose|k: int| #[trigger] holder(contours, ids, p, k);
        assert forall|k: int| 0 <= k < s.len() && k != o implies before(#[trigger] s[k]) == now(s[k]) by {
            assert(s[k] == k);
            if holder(contours, ids, p, k) {
                lemma_one_holder(contours, ids, p, k, o);
            }
        }
        lemma_sum_change(s, before, now, o);
        assert(s[o] == o);
        lemma_sum_push(held(contours, ids, holes, o, m), h, a);
        assert(holes.take(n as int) =~= holes.take(m as int).push(h));
        lemma_sum_push(holes.take(m as int), h, a);
    }
}

/// The polygons enclose the area of the region exactly.
pub proof fn lemma_polygons_area(
    edges: Seq<Edge>,
    rings: Seq<Seq<Edge>>,
    contours: Seq<LineString>,
    polygons: Seq<Polygon>,
    f: Region,
)
    requires
        outlined(edges, rings, contours, f),
        assembled(contours, polygons),
    ensures
        polygons_area(polygons) == 2 * cell_count(f),
{
    lemma_outline_facts(edges, rings, contours, f);
    lemma_owned(edges, rings, contours, f);
    lemma_contours_area(edges, rings, contours, f);
    let ids = exterior_ids(contours, contours.len());
    let holes = hole_ids(contours, contours.len());
    let a = area_of(contours);
    let own = |k: int| sum(held(contours, ids, holes, k, holes.len()), a);
    let both = |k: int| a(ids[k]) + sum(held(contours, ids, holes, k, holes.len()), a);
    let s = indices(ids.len());
    assert forall|j: int| 0 <= j < holes.len() implies is_held(
        contours,
        ids,
        contours[#[trigger] holes[j]].0@[0],
    ) by {
        lemma_hole_ids(contours, contours.len(), j);
        let h = holes[j];
        assert(doubled_area(contours[h].0@) < 0);
        assert(holder(contours, ids, contours[h].0@[0], holder_of(contours, h)));
    }
    assert forall|k: int|
        #![trigger polygons[k]]
        #![trigger s[k]]
        0 <= k < polygons.len() implies polygon_area(polygons[k]) == both(s[k]) by {
        let mine = held(contours, ids, holes, k, holes.len());
        let inner = polygons[k].interiors@;
        lemma_closed_same(contours[ids[k]].0@, 0, 0);
        let ra = |ring: LineString| doubled_area(ring.0@);
        assert forall|i: int|
            #![trigger inner[i]]
            #![trigger mine[i]]
            0 <= i < inner.len() implies ra(inner[i]) == a(mine[i]) by {
            assert(polygons[k].interiors@[i].0@ == closed(contours[mine[i]].0@));
            lemma_closed_same(contours[mine[i]].0@, 0, 0);
        }
        lemma_sum_match(inner, mine, ra, a);
    }
    lemma_sum_match(polygons, s, |polygon: Polygon| polygon_area(polygon), both);
    let ext = |k: int| a(ids[k]);
    lemma_sum_split(s, both, ext, own);
    lemma_sum_indices(ids, a);
    lemma_held_area(contours, ids, holes, holes.len());
    assert(holes.take(holes.len() as int) =~= holes);
    lemma_ids_area(contours, contours.len());
    let area = |c: LineString| doubled_area(c.0@);
    lemma_sum_indices(contours, area);
    lemma_sum_same(indices(contours.len()), a, |i: int| area(contours[i]));
}

/// A closed ring of at least four sides, each along an axis.
pub open spec fn ring_shape(ring: Seq<Coord>) -> bool {
    &&& ring.len() >= 5
    &&& ring[0] == ring.last()
    &&& rectilinear(ring)
}

/// Exteriors run clockwise, interiors the other way round.
pub open spec fn polygon_shape(polygon: Polygon) -> bool {
    &&& ring_shape(polygon.exterior.0@)
    &&& doubled_area(polygon.exterior.0@) > 0
    &&& forall|i: int|
        0 <= i < polygon.interiors@.len() ==> ring_shape((#[trigger] polygon.interiors@[i]).0@)
            && doubled_area(polygon.interiors@[i].0@) < 0
}

pub proof fn lemma_outline_shape(points: Seq<Coord>, r: Seq<Edge>)
    requires
        outlines(points, r),
    ensures
        ring_shape(closed(points)),
{
    let q = points.push(points[0]);
    let n = points.len() as int;
    assert(q[n - 1] != q[n]);
}

pub proof fn lemma_polygons_shape(
    edges: Seq<Edge>,
    rings: Seq<Seq<Edge>>,
    contours: Seq<LineString>,
    polygons: Seq<Polygon>,
    f: Region,
)
    requires
        outlined(edges, rings, contours, f),
        assembled(contours, polygons),
    ensures
        forall|k: int| 0 <= k < polygons.len() ==> polygon_shape(#[trigger] polygons[k]),
{
    lemma_outline_facts(edges, rings, contours, f);
    let ids = exterior_ids(contours, contours.len());
    let holes = hole_ids(contours, contours.len());
    assert forall|k: int| 0 <= k < polygons.len() implies polygon_shape(#[trigger] polygons[k]) by {
        lemma_exterior_ids(contours, contours.len(), k);
        let o = ids[k];
        lemma_closed_same(contours[o].0@, 0, 0);
        lemma_outline_shape(contours[o].0@, rings[o]);
        let mine = held(contours, ids, holes, k, holes.len());
        assert forall|i: int| 0 <= i < polygons[k].interiors@.len() implies ring_shape(
            (#[trigger] polygons[k].interiors@[i]).0@,
        ) && doubled_area(polygons[k].interiors@[i].0@) < 0 by {
            let j = lemma_held_is(contours, ids, holes, k, holes.len(), i);
            let h = holes[j];
            lemma_hole_ids(contours, contours.len(), j);
            assert(doubled_area(contours[h].0@) < 0);
            lemma_closed_same(contours[h].0@, 0, 0);
            lemma_outline_shape(contours[h].0@, rings[h]);
        }
    }
}

} // verus!
