//! Why the polygons that are made of traced contours outline their region.

use vstd::prelude::*;

use crate::area::{lemma_smaller, ring_area, size};
use crate::assembly::{holder_of, outlined, owner_fn};
use crate::assembly::{
    lemma_covers_filled, lemma_held_has, lemma_held_is, lemma_ids_distinct, lemma_one_holder,
    lemma_outline_facts, lemma_owned, lemma_rings_bound,
};
use crate::boundary::{
    borders, boundary, breaks_at, comes_before, hseg, inside, leads, left_cell, left_end, length,
    near, outer, right_cell, ring_h, ring_ok, ring_v, ring_w, sharp, step_h, step_v, straight,
    total_h, total_v, vseg, Edge, Region,
};
use crate::boundary::{
    lemma_alone_h, lemma_alone_v, lemma_comparable, lemma_near, lemma_nested, lemma_not_mutual,
    lemma_some_edge,
};
use crate::canonical::{lemma_end_not_inside, lemma_left_step};
use crate::connection::lemma_edge_cells;
use crate::contour::{
    additive, closes, directed, in_turn, on_the_way, outlines, rectilinear, starts_at,
};
use crate::corners::{bends_round, corner_ok, lemma_first_level, side, swept};
use crate::geometry::{closed, doubled_area, step_sum, Coord, LineString, Polygon};
use crate::nesting::{fills, lemma_gap, lemma_gap_owned, lemma_polygons_fill, owned};
use crate::outline::{
    covers_beside, leads_off, level_at, outlines_region, ring_at, ring_count, runs_along, side_at,
    side_count, starts_before, upright_at,
};
use crate::polygons::{assembled, exterior_ids, held, hole_ids, holder};
use crate::polygons::{
    lemma_exterior_ids, lemma_exterior_listed, lemma_hole_ids, lemma_hole_listed,
};
use crate::sums::{ind, sum};
use crate::sums::{lemma_sum_bounds_term, lemma_sum_positive, lemma_sum_same, lemma_sum_scale};

verus! {

/// The step of a ring with number `i`.
spec fn step_of(ring: Seq<Coord>, i: int, g: spec_fn(Coord, Coord) -> int) -> int {
    g(ring[i], ring[(i + 1) % ring.len() as int])
}

proof fn lemma_steps_nonneg(ring: Seq<Coord>, n: nat, g: spec_fn(Coord, Coord) -> int)
    requires
        forall|p: Coord, q: Coord| #[trigger] g(p, q) >= 0,
    ensures
        step_sum(ring, n, g) >= 0,
    decreases n,
{
    if n > 0 {
        lemma_steps_nonneg(ring, (n - 1) as nat, g);
    }
}

proof fn lemma_steps_term(ring: Seq<Coord>, n: nat, g: spec_fn(Coord, Coord) -> int, i: int)
    requires
        forall|p: Coord, q: Coord| #[trigger] g(p, q) >= 0,
        0 <= i < n,
    ensures
        step_sum(ring, n, g) >= step_of(ring, i, g),
    decreases n,
{
    if i == n - 1 {
        lemma_steps_nonneg(ring, (n - 1) as nat, g);
    } else {
        lemma_steps_term(ring, (n - 1) as nat, g, i);
    }
}

proof fn lemma_steps_two(ring: Seq<Coord>, n: nat, g: spec_fn(Coord, Coord) -> int, i: int, j: int)
    requires
        forall|p: Coord, q: Coord| #[trigger] g(p, q) >= 0,
        0 <= i < j < n,
    ensures
        step_sum(ring, n, g) >= step_of(ring, i, g) + step_of(ring, j, g),
    decreases n,
{
    if j == n - 1 {
        lemma_steps_term(ring, (n - 1) as nat, g, i);
    } else {
        lemma_steps_two(ring, (n - 1) as nat, g, i, j);
    }
}

proof fn lemma_steps_some(ring: Seq<Coord>, n: nat, g: spec_fn(Coord, Coord) -> int) -> (i: int)
    requires
        step_sum(ring, n, g) > 0,
    ensures
        0 <= i < n,
        step_of(ring, i, g) > 0,
    decreases n,
{
    if step_of(ring, n - 1, g) > 0 {
        n - 1
    } else {
        lemma_steps_some(ring, (n - 1) as nat, g)
    }
}

/// Whether a step runs along the level step at `(x, y)` in a direction.
spec fn level_way(x: int, y: int, d: int) -> spec_fn(Coord, Coord) -> int {
    |p: Coord, q: Coord| ind(hseg(side(p, q), x, y) == d)
}

/// Whether a step runs along the upright step at `(x, y)` in a direction.
spec fn upright_way(x: int, y: int, d: int) -> spec_fn(Coord, Coord) -> int {
    |p: Coord, q: Coord| ind(vseg(side(p, q), x, y) == d)
}

proof fn lemma_level_additive(x: int, y: int, d: int)
    requires
        d != 0,
    ensures
        additive(level_way(x, y, d)),
{
    let g = level_way(x, y, d);
    assert forall|p: Coord, q: Coord, s: Coord| #[trigger] on_the_way(p, q, s) implies g(p, q) + g(
        q,
        s,
    ) == g(p, s) by {
    }
}

proof fn lemma_upright_additive(x: int, y: int, d: int)
    requires
        d != 0,
    ensures
        additive(upright_way(x, y, d)),
{
    let g = upright_way(x, y, d);
    assert forall|p: Coord, q: Coord, s: Coord| #[trigger] on_the_way(p, q, s) implies g(p, q) + g(
        q,
        s,
    ) == g(p, s) by {
    }
}

/// The contour as a closed ring, side by side.
proof fn lemma_closed_sides(points: Seq<Coord>, r: Seq<Edge>, i: int, g: spec_fn(Coord, Coord) -> int)
    requires
        outlines(points, r),
        0 <= i < points.len(),
    ensures
        closed(points) == points.push(points[0]),
        side_count(closed(points)) == points.len(),
        step_of(points, i, g) == g(closed(points)[i], closed(points)[i + 1]),
        straight(side_at(closed(points), i)),
        rectilinear(closed(points)),
{
    let q = points.push(points[0]);
    let n = points.len() as int;
    assert(q[n - 1] != q[n]);
    assert(q[i] != q[i + 1]);
    if i + 1 < n {
        vstd::arithmetic::div_mod::lemma_small_mod((i + 1) as nat, n as nat);
    } else {
        vstd::arithmetic::div_mod::lemma_mod_self_0(n);
    }
}

/// Where a side runs, an edge of its ring runs the same way.
proof fn lemma_side_edge(
    points: Seq<Coord>,
    r: Seq<Edge>,
    i: int,
    g: spec_fn(Coord, Coord) -> int,
) -> (k: int)
    requires
        outlines(points, r),
        additive(g),
        forall|p: Coord, q: Coord| #[trigger] g(p, q) >= 0,
        0 <= i < points.len(),
        g(closed(points)[i], closed(points)[i + 1]) > 0,
    ensures
        0 <= k < r.len(),
        g(r[k].start, r[k].end) > 0,
{
    lemma_closed_sides(points, r, i, g);
    lemma_steps_term(points, points.len(), g, i);
    assert(step_sum(points, points.len(), g) == sum(r, |e: Edge| g(e.start, e.end)));
    lemma_sum_positive(r, |e: Edge| g(e.start, e.end))
}

/// Where an edge runs, a side of its ring runs the same way.
proof fn lemma_edge_side(
    points: Seq<Coord>,
    r: Seq<Edge>,
    k: int,
    g: spec_fn(Coord, Coord) -> int,
) -> (i: int)
    requires
        outlines(points, r),
        additive(g),
        forall|p: Coord, q: Coord| #[trigger] g(p, q) >= 0,
        0 <= k < r.len(),
        g(r[k].start, r[k].end) > 0,
    ensures
        0 <= i < points.len(),
        g(closed(points)[i], closed(points)[i + 1]) > 0,
{
    let w = |e: Edge| g(e.start, e.end);
    assert forall|j: int| 0 <= j < r.len() implies w(#[trigger] r[j]) >= 0 by {
    }
    lemma_sum_bounds_term(r, w, k);
    assert(step_sum(points, points.len(), g) == sum(r, |e: Edge| g(e.start, e.end)));
    let i = lemma_steps_some(points, points.len(), g);
    lemma_closed_sides(points, r, i, g);
    i
}

/// Every side of a contour has the region on its right.
proof fn lemma_side_borders(
    edges: Seq<Edge>,
    rings: Seq<Seq<Edge>>,
    contours: Seq<LineString>,
    f: Region,
    k: int,
    i: int,
)
    requires
        outlined(edges, rings, contours, f),
        0 <= k < rings.len(),
        0 <= i < contours[k].0@.len(),
    ensures
        borders(side_at(closed(contours[k].0@), i), f),
{
    lemma_rings_bound(edges, rings, contours, f);
    let points = contours[k].0@;
    assert(outlines(contours[k].0@, rings[k]));
    let e = side_at(closed(points), i);
    lemma_closed_sides(points, rings[k], i, level_way(0, 0, 1));
    assert forall|x: int, y: int| #[trigger] hseg(e, x, y) != 0 implies hseg(e, x, y) == step_h(
        f,
        x,
        y,
    ) by {
        let d = hseg(e, x, y);
        let g = level_way(x, y, d);
        lemma_level_additive(x, y, d);
        let j = lemma_side_edge(points, rings[k], i, g);
        assert(borders(rings[k][j], f));
        assert(hseg(rings[k][j], x, y) == d);
    }
    assert forall|x: int, y: int| #[trigger] vseg(e, x, y) != 0 implies vseg(e, x, y) == step_v(
        f,
        x,
        y,
    ) by {
        let d = vseg(e, x, y);
        let g = upright_way(x, y, d);
        lemma_upright_additive(x, y, d);
        let j = lemma_side_edge(points, rings[k], i, g);
        assert(borders(rings[k][j], f));
        assert(vseg(rings[k][j], x, y) == d);
    }
}

/// Only one side of all contours runs along a level step.
proof fn lemma_level_once(
    edges: Seq<Edge>,
    rings: Seq<Seq<Edge>>,
    contours: Seq<LineString>,
    f: Region,
    k: int,
    i: int,
    l: int,
    j: int,
    x: int,
    y: int,
)
    requires
        outlined(edges, rings, contours, f),
        0 <= k < rings.len(),
        0 <= l < rings.len(),
        0 <= i < contours[k].0@.len(),
        0 <= j < contours[l].0@.len(),
        hseg(side_at(closed(contours[k].0@), i), x, y) != 0,
        hseg(side_at(closed(contours[l].0@), j), x, y) != 0,
    ensures
        k == l,
        i == j,
{
    lemma_rings_bound(edges, rings, contours, f);
    assert(outlines(contours[k].0@, rings[k]) && outlines(contours[l].0@, rings[l]));
    lemma_side_borders(edges, rings, contours, f, k, i);
    lemma_side_borders(edges, rings, contours, f, l, j);
    let d = step_h(f, x, y);
    let g = level_way(x, y, d);
    assert(hseg(side_at(closed(contours[k].0@), i), x, y) == d);
    assert(hseg(side_at(closed(contours[l].0@), j), x, y) == d);
    lemma_level_additive(x, y, d);
    let a = lemma_side_edge(contours[k].0@, rings[k], i, g);
    let b = lemma_side_edge(contours[l].0@, rings[l], j, g);
    assert(hseg(rings[k][a], x, y) == d && hseg(rings[l][b], x, y) == d);
    lemma_alone_h(rings, f, k, a, k, x, y);
    lemma_alone_h(rings, f, k, a, l, x, y);
    lemma_alone_h(rings, f, l, b, l, x, y);
    assert(k == l);
    if i != j {
        let points = contours[k].0@;
        let r = rings[k];
        let (u, v) = if i < j {
            (i, j)
        } else {
            (j, i)
        };
        lemma_closed_sides(points, r, u, g);
        lemma_closed_sides(points, r, v, g);
        lemma_steps_two(points, points.len(), g, u, v);
        let w = |e: Edge| g(e.start, e.end);
        assert(step_sum(points, points.len(), g) == sum(r, |e: Edge| g(e.start, e.end)));
        assert(d == 1 || d == -1);
        let h = |e: Edge| hseg(e, x, y);
        let dh = |e: Edge| d * hseg(e, x, y);
        assert forall|q: int| 0 <= q < r.len() implies w(#[trigger] r[q]) == dh(r[q]) by {
            assert(borders(rings[k][q], f));
            let t = hseg(r[q], x, y);
            assert(t == 0 || t == d);
            assert(d * t == ind(t == d)) by (nonlinear_arith)
                requires
                    t == 0 || t == d,
                    d == 1 || d == -1,
                    ind(t == d) == if t == d { 1int } else { 0int },
            ;
        }
        lemma_sum_same(r, w, dh);
        lemma_sum_scale(r, dh, h, d);
        assert(ring_h(rings[k], x, y) == d);
        assert(d * d == 1) by (nonlinear_arith)
            requires
                d == 1 || d == -1,
        ;
        assert(false);
    }
}

/// Only one side of all contours runs along an upright step.
proof fn lemma_upright_once(
    edges: Seq<Edge>,
    rings: Seq<Seq<Edge>>,
    contours: Seq<LineString>,
    f: Region,
    k: int,
    i: int,
    l: int,
    j: int,
    x: int,
    y: int,
)
    requires
        outlined(edges, rings, contours, f),
        0 <= k < rings.len(),
        0 <= l < rings.len(),
        0 <= i < contours[k].0@.len(),
        0 <= j < contours[l].0@.len(),
        vseg(side_at(closed(contours[k].0@), i), x, y) != 0,
        vseg(side_at(closed(contours[l].0@), j), x, y) != 0,
    ensures
        k == l,
        i == j,
{
    lemma_rings_bound(edges, rings, contours, f);
    assert(outlines(contours[k].0@, rings[k]) && outlines(contours[l].0@, rings[l]));
    lemma_side_borders(edges, rings, contours, f, k, i);
    lemma_side_borders(edges, rings, contours, f, l, j);
    let d = step_v(f, x, y);
    let g = upright_way(x, y, d);
    assert(vseg(side_at(closed(contours[k].0@), i), x, y) == d);
    assert(vseg(side_at(closed(contours[l].0@), j), x, y) == d);
    lemma_upright_additive(x, y, d);
    let a = lemma_side_edge(contours[k].0@, rings[k], i, g);
    let b = lemma_side_edge(contours[l].0@, rings[l], j, g);
    assert(vseg(rings[k][a], x, y) == d && vseg(rings[l][b], x, y) == d);
    lemma_alone_v(rings, f, k, a, k, x, y);
    lemma_alone_v(rings, f, k, a, l, x, y);
    lemma_alone_v(rings, f, l, b, l, x, y);
    assert(k == l);
    if i != j {
        let points = contours[k].0@;
        let r = rings[k];
        let (u, v) = if i < j {
            (i, j)
        } else {
            (j, i)
        };
        lemma_closed_sides(points, r, u, g);
        lemma_closed_sides(points, r, v, g);
        lemma_steps_two(points, points.len(), g, u, v);
        let w = |e: Edge| g(e.start, e.end);
        assert(step_sum(points, points.len(), g) == sum(r, |e: Edge| g(e.start, e.end)));
        assert(d == 1 || d == -1);
        let h = |e: Edge| vseg(e, x, y);
        let dh = |e: Edge| d * vseg(e, x, y);
        assert forall|q: int| 0 <= q < r.len() implies w(#[trigger] r[q]) == dh(r[q]) by {
            assert(borders(rings[k][q], f));
            let t = vseg(r[q], x, y);
            assert(t == 0 || t == d);
            assert(d * t == ind(t == d)) by (nonlinear_arith)
                requires
                    t == 0 || t == d,
                    d == 1 || d == -1,
                    ind(t == d) == if t == d { 1int } else { 0int },
            ;
        }
        lemma_sum_same(r, w, dh);
        lemma_sum_scale(r, dh, h, d);
        assert(ring_v(rings[k], x, y) == d);
        assert(d * d == 1) by (nonlinear_arith)
            requires
                d == 1 || d == -1,
        ;
        assert(false);
    }
}

/// The first side of a contour is the first edge of its ring.
proof fn lemma_first_side(
    edges: Seq<Edge>,
    rings: Seq<Seq<Edge>>,
    contours: Seq<LineString>,
    f: Region,
    k: int,
)
    requires
        outlined(edges, rings, contours, f),
        0 <= k < rings.len(),
    ensures
        side_at(closed(contours[k].0@), 0) == rings[k][0],
        rings[k][0].start.y == rings[k][0].end.y,
        borders(rings[k][0], f),
{
    lemma_rings_bound(edges, rings, contours, f);
    let points = contours[k].0@;
    let q = closed(points);
    let r = rings[k];
    assert(outlines(contours[k].0@, rings[k]));
    assert(closes(edges, rings[k]));
    let m = choose|m: int| #[trigger] starts_at(edges, r, m);
    assert(swept(edges, f));
    lemma_first_level(edges, f, r, m);
    assert(directed(edges[m]) && sharp(edges[m], f));
    assert(borders(rings[k][0], f));
    lemma_side_borders(edges, rings, contours, f, k, 0);
    lemma_side_borders(edges, rings, contours, f, k, 1);
    lemma_closed_sides(points, r, 0, level_way(0, 0, 1));
    assert(bends_round(contours[k].0@, f));
    assert(corner_ok(f, q[0], q[1], q[2]));
    let a = side_at(q, 0);
    let b = side_at(q, 1);
    let e = r[0];
    if length(a) < length(e) {
        lemma_end_not_inside(f, a, b, e, length(a));
    } else if length(e) < length(a) {
        lemma_edge_cells(a, f, length(e));
        lemma_edge_cells(a, f, length(e) - 1);
        assert(breaks_at(f, e.end));
        assert(false);
    }
}

/// No level side of a contour comes before its first one.
proof fn lemma_leads_off(
    edges: Seq<Edge>,
    rings: Seq<Seq<Edge>>,
    contours: Seq<LineString>,
    f: Region,
    k: int,
)
    requires
        outlined(edges, rings, contours, f),
        0 <= k < rings.len(),
    ensures
        leads_off(closed(contours[k].0@)),
{
    lemma_rings_bound(edges, rings, contours, f);
    lemma_first_side(edges, rings, contours, f, k);
    let points = contours[k].0@;
    let q = closed(points);
    let r = rings[k];
    assert(outlines(contours[k].0@, rings[k]));
    lemma_closed_sides(points, r, 0, level_way(0, 0, 1));
    assert forall|i: int|
        0 <= i < side_count(q) && (#[trigger] side_at(q, i)).start.y == side_at(q, i).end.y implies comes_before(
        side_at(q, 0),
        side_at(q, i),
    ) by {
        let e = side_at(q, i);
        lemma_side_borders(edges, rings, contours, f, k, i);
        lemma_left_step(f, e);
        let x = left_end(e);
        let y = e.start.y as int;
        let d = hseg(e, x, y);
        let g = level_way(x, y, d);
        lemma_level_additive(x, y, d);
        let j = lemma_side_edge(points, r, i, g);
        assert(hseg(r[j], x, y) == d);
        assert(leads(rings[k]));
        assert(comes_before(r[0], r[j]));
        assert(left_end(r[j]) <= x);
    }
}

/// A contour runs along the boundary of the region.
proof fn lemma_runs_along(
    edges: Seq<Edge>,
    rings: Seq<Seq<Edge>>,
    contours: Seq<LineString>,
    f: Region,
    k: int,
)
    requires
        outlined(edges, rings, contours, f),
        0 <= k < rings.len(),
    ensures
        runs_along(f, closed(contours[k].0@)),
{
    let points = contours[k].0@;
    let q = closed(points);
    let r = rings[k];
    assert(outlines(contours[k].0@, rings[k]));
    lemma_closed_sides(points, r, 0, level_way(0, 0, 1));
    let n = side_count(q);
    assert forall|i: int| 0 <= i < n implies borders(#[trigger] side_at(q, i), f) by {
        lemma_side_borders(edges, rings, contours, f, k, i);
    }
    assert forall|i: int, j: int| 0 <= i < j < n implies #[trigger] side_at(q, i)
        != #[trigger] side_at(q, j) by {
        let a = side_at(q, i);
        assert(borders(side_at(q, i), f));
        if a == side_at(q, j) {
            if a.start.y == a.end.y {
                lemma_left_step(f, a);
                lemma_level_once(
                    edges,
                    rings,
                    contours,
                    f,
                    k,
                    i,
                    k,
                    j,
                    left_end(a),
                    a.start.y as int,
                );
            } else {
                let y = if a.start.y < a.end.y {
                    a.start.y as int
                } else {
                    a.end.y as int
                };
                assert(straight(a));
                assert(vseg(a, a.start.x as int, y) != 0);
                lemma_upright_once(edges, rings, contours, f, k, i, k, j, a.start.x as int, y);
            }
        }
    }
    assert(swept(edges, f));
    assert(bends_round(contours[k].0@, f));
    lemma_leads_off(edges, rings, contours, f, k);
}

/// Contours come in the order of their first sides.
proof fn lemma_starts_before(
    edges: Seq<Edge>,
    rings: Seq<Seq<Edge>>,
    contours: Seq<LineString>,
    f: Region,
    k: int,
    l: int,
)
    requires
        outlined(edges, rings, contours, f),
        0 <= k < l < rings.len(),
    ensures
        starts_before(closed(contours[k].0@), closed(contours[l].0@)),
{
    lemma_first_side(edges, rings, contours, f, k);
    lemma_first_side(edges, rings, contours, f, l);
    assert(in_turn(edges, rings[k], rings[l]));
    let (m, n) = choose|m: int, n: int| #[trigger]
        starts_at(edges, rings[k], m) && #[trigger] starts_at(edges, rings[l], n) && m < n;
    assert(comes_before(edges[m], edges[n]));
    let a = rings[k][0];
    let b = rings[l][0];
    if a.start.y == b.start.y && left_end(a) == left_end(b) {
        lemma_left_step(f, a);
        lemma_left_step(f, b);
        assert(outlines(contours[k].0@, rings[k]) && outlines(contours[l].0@, rings[l]));
        lemma_level_once(edges, rings, contours, f, k, 0, l, 0, left_end(a), a.start.y as int);
    }
}

/// What lies on the right of an outer ring, it fills.
proof fn lemma_outer_fills(
    rings: Seq<Seq<Edge>>,
    f: Region,
    owner: spec_fn(int) -> int,
    o: int,
)
    requires
        boundary(rings, f),
        owned(rings, owner),
        0 <= o < rings.len(),
        outer(rings, o),
    ensures
        ({
            let c = right_cell(rings[o][0], 0);
            fills(rings, owner, o, c.0, c.1)
        }),
{
    let c = right_cell(rings[o][0], 0);
    assert forall|h: int|
        0 <= h < rings.len() && !#[trigger] outer(rings, h) && owner(h) == o implies ring_w(
        rings[h],
        c.0,
        c.1,
    ) == 0 by {
        if ring_w(rings[h], c.0, c.1) != 0 {
            assert(near(rings, h, o) != 0);
            assert(inside(rings, h, owner(h)));
            lemma_not_mutual(rings, f, h, o);
        }
    }
}

/// What lies on the right of an inner ring, its owner fills.
proof fn lemma_owner_fills(
    rings: Seq<Seq<Edge>>,
    f: Region,
    owner: spec_fn(int) -> int,
    h: int,
)
    requires
        boundary(rings, f),
        owned(rings, owner),
        0 <= h < rings.len(),
        !outer(rings, h),
    ensures
        ({
            let c = right_cell(rings[h][0], 0);
            fills(rings, owner, owner(h), c.0, c.1)
        }),
{
    let c = right_cell(rings[h][0], 0);
    let o = owner(h);
    assert(ring_ok(rings[h]));
    assert(borders(rings[h][0], f));
    assert(straight(rings[h][0]));
    lemma_edge_cells(rings[h][0], f, 0);
    lemma_polygons_fill(rings, f, owner, c.0, c.1);
    let k = choose|k: int| fills(rings, owner, k, c.0, c.1);
    assert(near(rings, k, h) != 0 && near(rings, o, h) != 0);
    assert(outer(rings, k) && outer(rings, o));
    assert(inside(rings, h, k));
    assert(ring_area(rings[o]) <= ring_area(rings[k]));
    if k != o {
        lemma_comparable(rings, f, k, o, c.0, c.1);
        if inside(rings, k, o) {
            lemma_smaller(rings, f, o, k);
            assert(size(rings, k) == ring_area(rings[k]));
            assert(size(rings, o) == ring_area(rings[o]));
        } else {
            // Between the two lies a gap around the smaller one.
            let l = left_cell(rings[o][0], 0);
            assert(ring_ok(rings[o]));
            assert(borders(rings[o][0], f));
            assert(straight(rings[o][0]));
            lemma_near(rings, f, o, 0, k, 0);
            lemma_edge_cells(rings[o][0], f, 0);
            let g = lemma_gap(rings, f, k, l);
            lemma_near(rings, f, o, 0, g, 0);
            lemma_nested(rings, f, g, o, c.0, c.1);
            let w = lemma_gap_owned(rings, f, owner, k, g, c.0, c.1);
            assert(!outer(rings, w));
        }
        assert(false);
    }
}

/// Exteriors are listed in the order of the contours.
proof fn lemma_exteriors_rise(contours: Seq<LineString>, n: nat, i: int, j: int)
    requires
        n <= contours.len(),
        0 <= i < j < exterior_ids(contours, n).len(),
    ensures
        exterior_ids(contours, n)[i] < exterior_ids(contours, n)[j],
    decreases n,
{
    let shorter = exterior_ids(contours, (n - 1) as nat);
    if j < shorter.len() {
        lemma_exteriors_rise(contours, (n - 1) as nat, i, j);
    } else {
        lemma_exterior_ids(contours, (n - 1) as nat, i);
    }
}

/// And so are holes.
proof fn lemma_holes_rise(contours: Seq<LineString>, n: nat, i: int, j: int)
    requires
        n <= contours.len(),
        0 <= i < j < hole_ids(contours, n).len(),
    ensures
        hole_ids(contours, n)[i] < hole_ids(contours, n)[j],
    decreases n,
{
    let shorter = hole_ids(contours, (n - 1) as nat);
    if j < shorter.len() {
        lemma_holes_rise(contours, (n - 1) as nat, i, j);
    } else {
        lemma_hole_ids(contours, (n - 1) as nat, i);
    }
}

/// And those that one exterior holds.
proof fn lemma_held_rise(contours: Seq<LineString>, k: int, n: nat, i: int, j: int)
    requires
        n <= hole_ids(contours, contours.len()).len(),
        0 <= i < j < held(
            contours,
            exterior_ids(contours, contours.len()),
            hole_ids(contours, contours.len()),
            k,
            n,
        ).len(),
    ensures
        ({
            let own = held(
                contours,
                exterior_ids(contours, contours.len()),
                hole_ids(contours, contours.len()),
                k,
                n,
            );
            own[i] < own[j]
        }),
    decreases n,
{
    let ids = exterior_ids(contours, contours.len());
    let holes = hole_ids(contours, contours.len());
    let shorter = held(contours, ids, holes, k, (n - 1) as nat);
    if j < shorter.len() {
        lemma_held_rise(contours, k, (n - 1) as nat, i, j);
    } else {
        let a = lemma_held_is(contours, ids, holes, k, (n - 1) as nat, i);
        lemma_holes_rise(contours, contours.len(), a, n - 1);
    }
}

/// The number of the contour that ring `j` of polygon `k` is made of.
spec fn contour_of(contours: Seq<LineString>, k: int, j: int) -> int {
    let ids = exterior_ids(contours, contours.len());
    let holes = hole_ids(contours, contours.len());
    if j == 0 {
        ids[k]
    } else {
        held(contours, ids, holes, k, holes.len())[j - 1]
    }
}

/// A ring of a polygon is a contour, closed, and the polygon covers what lies beside
/// it.
proof fn lemma_ring_contour(
    edges: Seq<Edge>,
    rings: Seq<Seq<Edge>>,
    contours: Seq<LineString>,
    polygons: Seq<Polygon>,
    f: Region,
    k: int,
    j: int,
)
    requires
        outlined(edges, rings, contours, f),
        assembled(contours, polygons),
        0 <= k < polygons.len(),
        0 <= j < ring_count(polygons[k]),
    ensures
        ({
            let c = contour_of(contours, k, j);
            &&& 0 <= c < contours.len()
            &&& ring_at(polygons[k], j) == closed(contours[c].0@)
            &&& outer(rings, c) == (j == 0)
            &&& j > 0 ==> holder(
                contours,
                exterior_ids(contours, contours.len()),
                contours[c].0@[0],
                k,
            )
            &&& covers_beside(polygons[k], j)
        }),
{
    lemma_outline_facts(edges, rings, contours, f);
    lemma_owned(edges, rings, contours, f);
    let ids = exterior_ids(contours, contours.len());
    let holes = hole_ids(contours, contours.len());
    let owner = owner_fn(contours);
    let c = contour_of(contours, k, j);
    lemma_exterior_ids(contours, contours.len(), k);
    assert(doubled_area(contours[ids[k]].0@) > 0);
    assert(outer(rings, ids[k]));
    if j == 0 {
        lemma_outer_fills(rings, f, owner, c);
    } else {
        let i = lemma_held_is(contours, ids, holes, k, holes.len(), j - 1);
        lemma_hole_ids(contours, contours.len(), i);
        assert(doubled_area(contours[c].0@) < 0);
        assert(!outer(rings, c));
        assert(polygons[k].interiors@[j - 1].0@ == closed(contours[c].0@));
        assert(holder(contours, ids, contours[c].0@[0], holder_of(contours, c)));
        lemma_one_holder(contours, ids, contours[c].0@[0], holder_of(contours, c), k);
        assert(owner(c) == ids[k]);
        lemma_owner_fills(rings, f, owner, c);
    }
    lemma_first_side(edges, rings, contours, f, c);
    let b = right_cell(rings[c][0], 0);
    lemma_covers_filled(edges, rings, contours, polygons, f, k, b.0, b.1);
}

/// Every contour is a ring of some polygon.
proof fn lemma_contour_ring(
    edges: Seq<Edge>,
    rings: Seq<Seq<Edge>>,
    contours: Seq<LineString>,
    polygons: Seq<Polygon>,
    f: Region,
    c: int,
) -> (r: (int, int))
    requires
        outlined(edges, rings, contours, f),
        assembled(contours, polygons),
        0 <= c < contours.len(),
    ensures
        0 <= r.0 < polygons.len(),
        0 <= r.1 < ring_count(polygons[r.0]),
        ring_at(polygons[r.0], r.1) == closed(contours[c].0@),
{
    lemma_outline_facts(edges, rings, contours, f);
    lemma_owned(edges, rings, contours, f);
    let ids = exterior_ids(contours, contours.len());
    let holes = hole_ids(contours, contours.len());
    assert(doubled_area(contours[c].0@) == ring_area(rings[c]));
    if doubled_area(contours[c].0@) > 0 {
        let k = lemma_exterior_listed(contours, contours.len(), c);
        assert(polygons[k].exterior.0@ == closed(contours[ids[k]].0@));
        (k, 0)
    } else {
        assert(!outer(rings, c));
        let j = lemma_hole_listed(contours, contours.len(), c);
        let k = holder_of(contours, c);
        assert(holder(contours, ids, contours[c].0@[0], k));
        let i = lemma_held_has(contours, ids, holes, k, holes.len(), j);
        let own = held(contours, ids, holes, k, holes.len());
        assert(polygons[k].interiors@[i].0@ == closed(contours[own[i]].0@));
        (k, i + 1)
    }
}

/// Different rings of polygons are different contours.
proof fn lemma_contours_differ(
    edges: Seq<Edge>,
    rings: Seq<Seq<Edge>>,
    contours: Seq<LineString>,
    polygons: Seq<Polygon>,
    f: Region,
    k: int,
    j: int,
    l: int,
    h: int,
)
    requires
        outlined(edges, rings, contours, f),
        assembled(contours, polygons),
        0 <= k < polygons.len(),
        0 <= j < ring_count(polygons[k]),
        0 <= l < polygons.len(),
        0 <= h < ring_count(polygons[l]),
        contour_of(contours, k, j) == contour_of(contours, l, h),
    ensures
        k == l,
        j == h,
{
    lemma_ring_contour(edges, rings, contours, polygons, f, k, j);
    lemma_ring_contour(edges, rings, contours, polygons, f, l, h);
    let ids = exterior_ids(contours, contours.len());
    let holes = hole_ids(contours, contours.len());
    if j == 0 {
        lemma_ids_distinct(contours, contours.len(), k, l);
    } else {
        let c = contour_of(contours, k, j);
        lemma_one_holder(contours, ids, contours[c].0@[0], k, l);
        if j < h {
            lemma_held_rise(contours, k, holes.len(), j - 1, h - 1);
        } else if h < j {
            lemma_held_rise(contours, k, holes.len(), h - 1, j - 1);
        }
    }
}

/// The polygons outline the region.
pub proof fn lemma_outlines(
    edges: Seq<Edge>,
    rings: Seq<Seq<Edge>>,
    contours: Seq<LineString>,
    polygons: Seq<Polygon>,
    f: Region,
)
    requires
        outlined(edges, rings, contours, f),
        assembled(contours, polygons),
    ensures
        outlines_region(f, polygons),
{
    lemma_rings_bound(edges, rings, contours, f);
    let ids = exterior_ids(contours, contours.len());
    let holes = hole_ids(contours, contours.len());
    assert forall|k: int, j: int|
        0 <= k < polygons.len() && 0 <= j < ring_count(polygons[k]) implies runs_along(
        f,
        #[trigger] ring_at(polygons[k], j),
    ) && covers_beside(polygons[k], j) by {
        lemma_ring_contour(edges, rings, contours, polygons, f, k, j);
        lemma_runs_along(edges, rings, contours, f, contour_of(contours, k, j));
    }
    assert forall|x: int, y: int| #[trigger] step_h(f, x, y) != 0 implies exists|
        k: int,
        j: int,
        i: int,
    | #[trigger] level_at(polygons, k, j, i, x, y) by {
        let d = step_h(f, x, y);
        assert(total_h(rings, x, y) == d);
        let c = lemma_some_ring_h(rings, x, y);
        let a = lemma_some_edge(rings[c], |e: Edge| hseg(e, x, y));
        assert(borders(rings[c][a], f));
        let g = level_way(x, y, d);
        lemma_level_additive(x, y, d);
        assert(outlines(contours[c].0@, rings[c]));
        assert(g(rings[c][a].start, rings[c][a].end) > 0);
        let i = lemma_edge_side(contours[c].0@, rings[c], a, g);
        lemma_closed_sides(contours[c].0@, rings[c], i, g);
        let (k, j) = lemma_contour_ring(edges, rings, contours, polygons, f, c);
        assert(level_at(polygons, k, j, i, x, y));
    }
    assert forall|x: int, y: int| #[trigger] step_v(f, x, y) != 0 implies exists|
        k: int,
        j: int,
        i: int,
    | #[trigger] upright_at(polygons, k, j, i, x, y) by {
        let d = step_v(f, x, y);
        assert(total_v(rings, x, y) == d);
        let c = lemma_some_ring_v(rings, x, y);
        let a = lemma_some_edge(rings[c], |e: Edge| vseg(e, x, y));
        assert(borders(rings[c][a], f));
        let g = upright_way(x, y, d);
        lemma_upright_additive(x, y, d);
        assert(outlines(contours[c].0@, rings[c]));
        assert(g(rings[c][a].start, rings[c][a].end) > 0);
        let i = lemma_edge_side(contours[c].0@, rings[c], a, g);
        lemma_closed_sides(contours[c].0@, rings[c], i, g);
        let (k, j) = lemma_contour_ring(edges, rings, contours, polygons, f, c);
        assert(upright_at(polygons, k, j, i, x, y));
    }
    assert forall|k: int, j: int, i: int, l: int, h: int, g: int, x: int, y: int|
        #[trigger] level_at(polygons, k, j, i, x, y) && #[trigger] level_at(
            polygons,
            l,
            h,
            g,
            x,
            y,
        ) implies k == l && j == h && i == g by {
        lemma_ring_contour(edges, rings, contours, polygons, f, k, j);
        lemma_ring_contour(edges, rings, contours, polygons, f, l, h);
        let c = contour_of(contours, k, j);
        let d = contour_of(contours, l, h);
        lemma_ring_length(edges, rings, contours, f, c);
        lemma_ring_length(edges, rings, contours, f, d);
        lemma_level_once(edges, rings, contours, f, c, i, d, g, x, y);
        lemma_contours_differ(edges, rings, contours, polygons, f, k, j, l, h);
    }
    assert forall|k: int, j: int, i: int, l: int, h: int, g: int, x: int, y: int|
        #[trigger] upright_at(polygons, k, j, i, x, y) && #[trigger] upright_at(
            polygons,
            l,
            h,
            g,
            x,
            y,
        ) implies k == l && j == h && i == g by {
        lemma_ring_contour(edges, rings, contours, polygons, f, k, j);
        lemma_ring_contour(edges, rings, contours, polygons, f, l, h);
        let c = contour_of(contours, k, j);
        let d = contour_of(contours, l, h);
        lemma_ring_length(edges, rings, contours, f, c);
        lemma_ring_length(edges, rings, contours, f, d);
        lemma_upright_once(edges, rings, contours, f, c, i, d, g, x, y);
        lemma_contours_differ(edges, rings, contours, polygons, f, k, j, l, h);
    }
    assert forall|k: int, l: int|
        #![trigger polygons[k], polygons[l]]
        0 <= k < l < polygons.len() implies starts_before(
        polygons[k].exterior.0@,
        polygons[l].exterior.0@,
    ) by {
        lemma_exteriors_rise(contours, contours.len(), k, l);
        lemma_exterior_ids(contours, contours.len(), k);
        lemma_exterior_ids(contours, contours.len(), l);
        lemma_starts_before(edges, rings, contours, f, ids[k], ids[l]);
    }
    assert forall|k: int, i: int, j: int|
        0 <= k < polygons.len() && 0 <= i < j < polygons[k].interiors@.len() implies starts_before(
        #[trigger] polygons[k].interiors@[i].0@,
        #[trigger] polygons[k].interiors@[j].0@,
    ) by {
        lemma_ring_contour(edges, rings, contours, polygons, f, k, i + 1);
        lemma_ring_contour(edges, rings, contours, polygons, f, k, j + 1);
        lemma_held_rise(contours, k, holes.len(), i, j);
        lemma_starts_before(
            edges,
            rings,
            contours,
            f,
            contour_of(contours, k, i + 1),
            contour_of(contours, k, j + 1),
        );
    }
}

proof fn lemma_ring_length(
    edges: Seq<Edge>,
    rings: Seq<Seq<Edge>>,
    contours: Seq<LineString>,
    f: Region,
    c: int,
)
    requires
        outlined(edges, rings, contours, f),
        0 <= c < contours.len(),
    ensures
        side_count(closed(contours[c].0@)) == contours[c].0@.len(),
{
    assert(outlines(contours[c].0@, rings[c]));
    lemma_closed_sides(contours[c].0@, rings[c], 0, level_way(0, 0, 1));
}

/// Where the region changes, some ring passes.
proof fn lemma_some_ring_h(rings: Seq<Seq<Edge>>, x: int, y: int) -> (m: int)
    requires
        total_h(rings, x, y) != 0,
    ensures
        0 <= m < rings.len(),
        ring_h(rings[m], x, y) != 0,
{
    let g = |r: Seq<Edge>| ring_h(r, x, y);
    if forall|k: int| 0 <= k < rings.len() ==> g(#[trigger] rings[k]) == 0 {
        crate::sums::lemma_sum_zero(rings, g);
    }
    choose|k: int| 0 <= k < rings.len() && g(#[trigger] rings[k]) != 0
}

proof fn lemma_some_ring_v(rings: Seq<Seq<Edge>>, x: int, y: int) -> (m: int)
    requires
        total_v(rings, x, y) != 0,
    ensures
        0 <= m < rings.len(),
        ring_v(rings[m], x, y) != 0,
{
    let g = |r: Seq<Edge>| ring_v(r, x, y);
    if forall|k: int| 0 <= k < rings.len() ==> g(#[trigger] rings[k]) == 0 {
        crate::sums::lemma_sum_zero(rings, g);
    }
    choose|k: int| 0 <= k < rings.len() && g(#[trigger] rings[k]) != 0
}

} // verus!
