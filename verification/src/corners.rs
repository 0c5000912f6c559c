//! Why a ring takes the first way to the right in every corner.
//!
//! Where two cells of the region meet in a corner only, two edges arrive and two
//! leave, and a ring that comes in along one cell goes on along the same one. So
//! the region alone says how a ring goes on.

use vstd::prelude::*;

use crate::assembly::{all_sharp, in_sweep_order};
use crate::boundary::{
    borders, breaks_at, chained, comes_before, heading, hseg, left_cell, length, sharp, straight,
    Edge, Region,
};
use crate::connection::lemma_edge_cells;
use crate::contour::{
    bounds_region, closes, directed, free_at, lemma_no_way_back, starts_at, turn_rank,
};
use crate::contour::rectilinear;
use crate::geometry::Coord;
use crate::turning::{across, end_of, in_rings, taken, taking, turns_best, used_up};
use crate::turning::{
    lemma_best_taken, lemma_corner, lemma_corner_arrivals, lemma_found_in, lemma_one_edge,
    lemma_taken_as,
};

verus! {

/// The cell ahead of an edge, on its right.
pub open spec fn ahead(e: Edge) -> (int, int) {
    match heading(e) {
        0 => (e.end.x as int, e.end.y as int),
        1 => (e.end.x - 1, e.end.y as int),
        2 => (e.end.x - 1, e.end.y - 1),
        _ => (e.end.x as int, e.end.y - 1),
    }
}

/// Where `b` goes on behind `a` it leaves no way to its right: it turns left only
/// around a cell of the region.
pub open spec fn turns_right(f: Region, a: Edge, b: Edge) -> bool {
    turn_rank(a.direction as int, b.direction as int) == 2 ==> f(ahead(a).0, ahead(a).1)
}

/// Each edge of a chain is the first way to the right behind the one before it.
pub open spec fn follows_right(f: Region, r: Seq<Edge>) -> bool {
    forall|i: int, j: int|
        #![trigger r[i], r[j]]
        0 <= i && j == i + 1 && j < r.len() ==> turns_right(f, r[i], r[j])
}

/// So it is all the way round.
pub open spec fn keeps_right(f: Region, r: Seq<Edge>) -> bool {
    &&& follows_right(f, r)
    &&& turns_right(f, r.last(), r[0])
}

pub open spec fn all_keep_right(rings: Seq<Seq<Edge>>, f: Region) -> bool {
    forall|k: int| 0 <= k < rings.len() ==> keeps_right(f, #[trigger] rings[k])
}

/// The edges are the boundary of a region as a sweep draws it.
pub open spec fn swept(edges: Seq<Edge>, f: Region) -> bool {
    &&& bounds_region(edges, f)
    &&& in_sweep_order(edges)
    &&& all_sharp(edges, f)
}

/// The edge that is taken next is the first way to the right.
pub proof fn lemma_right_next(
    edges: Seq<Edge>,
    f: Region,
    before: Seq<bool>,
    visited: Seq<bool>,
    rings: Seq<Seq<Edge>>,
    ids: Seq<int>,
    path: Seq<Edge>,
    n: int,
)
    requires
        bounds_region(edges, f),
        forall|q: int| 0 <= q < edges.len() ==> directed(#[trigger] edges[q]),
        used_up(edges, before, rings),
        all_keep_right(rings, f),
        taking(edges, before, visited, ids, path),
        path.last().end != path[0].start,
        free_at(edges, visited, path.last().end, n),
        forall|i: int| #[trigger]
            free_at(edges, visited, path.last().end, i) ==> turn_rank(
                path.last().direction as int,
                edges[n].direction as int,
            ) <= turn_rank(path.last().direction as int, edges[i].direction as int),
    ensures
        turns_right(f, path.last(), edges[n]),
{
    let last = path.len() - 1;
    let i = ids[last];
    let a = path.last();
    let b = edges[n];
    assert(edges[i] == a);
    assert(directed(edges[i]) && directed(edges[n]));
    assert(borders(edges[i], f) && borders(edges[n], f));
    lemma_edge_cells(a, f, end_of(a));
    lemma_edge_cells(b, f, 0);
    if turn_rank(a.direction as int, b.direction as int) == 2 && !f(ahead(a).0, ahead(a).1) {
        assert(across(a, b) == ahead(a));
        let (m, k) = lemma_corner(edges, f, i, n);
        if !visited[m] {
            assert(free_at(edges, visited, a.end, m));
        }
        assert(visited[m] == (before[m] || ids.contains(m)));
        if before[m] {
            assert(in_rings(rings, edges[m]));
            let (g, h) = lemma_found_in(rings, edges[m]);
            let r = rings[g];
            assert(chained(rings[g]) && turns_best(edges, before, rings[g]));
            let prior = if h > 0 {
                h - 1
            } else {
                r.len() - 1
            };
            assert(r[prior].end == edges[m].start);
            assert(taken(edges, before, rings[g][prior]));
            let j = lemma_taken_as(edges, before, r[prior]);
            lemma_corner_arrivals(edges, f, i, n, k, j);
            assert(!before[i]);
            assert(j == k);
            if h > 0 {
                lemma_best_taken(edges, before, r, prior, n);
                assert(visited[n] == (before[n] || ids.contains(n)));
            } else {
                assert(keeps_right(f, rings[g]));
                assert(turns_right(f, edges[k], edges[m]));
                assert(directed(edges[k]) && directed(edges[m]));
                assert(ahead(edges[k]) == left_cell(a, end_of(a)));
            }
        } else {
            let h = choose|h: int| 0 <= h < ids.len() && ids[h] == m;
            assert(path[h] == edges[m]);
            assert(h > 0);
            let j = ids[h - 1];
            assert(path[h - 1].end == path[h].start);
            assert(edges[j] == path[h - 1]);
            lemma_corner_arrivals(edges, f, i, n, k, j);
            assert(j != i);
            lemma_best_taken(edges, visited, path, h - 1, n);
        }
    }
}

/// The first edge of a chain that has come back is level: it leads the others.
pub proof fn lemma_first_level(edges: Seq<Edge>, f: Region, path: Seq<Edge>, first: int)
    requires
        swept(edges, f),
        forall|q: int| 0 <= q < edges.len() ==> directed(#[trigger] edges[q]),
        path.len() > 0,
        chained(path),
        starts_at(edges, path, first),
        path.last().end == path[0].start,
    ensures
        path[0].start.y == path[0].end.y,
        path.last().start.x == path.last().end.x,
        forall|i: int| 0 <= i < path.len() ==> comes_before(path[0], #[trigger] path[i]),
        forall|i: int| 0 <= i < path.len() ==> borders(#[trigger] path[i], f),
{
    let a = path[0];
    let z = path.last();
    let n = path.len() - 1;
    assert forall|i: int| 0 <= i < path.len() implies comes_before(path[0], #[trigger] path[i])
        && borders(path[i], f) by {
        let m = choose|m: int| first <= m < edges.len() && edges[m] == path[i];
        assert(comes_before(edges[first], edges[m]));
        assert(borders(edges[m], f));
    }
    assert(borders(path[0], f) && borders(path[n], f));
    assert(comes_before(path[0], path[n]));
    assert(straight(a) && straight(z));
    if n == 0 {
        assert(false);
    }
    assert(path[0].end == path[1].start);
    assert(comes_before(path[0], path[1]) && borders(path[1], f));
    lemma_no_way_back(z, a, f);
    lemma_no_way_back(a, path[1], f);
    assert(sharp(edges[first], f));
    if z.start.y == z.end.y {
        // Two level edges in one line would not have been cut in two.
        let x = a.start.x as int;
        let y = a.start.y as int;
        assert(breaks_at(f, a.start));
        if heading(a) == 0 {
            assert(hseg(z, x - 1, y) == 1 && hseg(a, x, y) == 1);
        } else {
            assert(hseg(z, x, y) == -1 && hseg(a, x - 1, y) == -1);
        }
        assert(false);
    }
}

/// A chain that comes back goes on with its first edge as the first way to the
/// right.
pub proof fn lemma_right_closed(
    edges: Seq<Edge>,
    f: Region,
    before: Seq<bool>,
    visited: Seq<bool>,
    rings: Seq<Seq<Edge>>,
    ids: Seq<int>,
    path: Seq<Edge>,
    first: int,
)
    requires
        swept(edges, f),
        forall|q: int| 0 <= q < edges.len() ==> directed(#[trigger] edges[q]),
        used_up(edges, before, rings),
        forall|k: int| 0 <= k < rings.len() ==> closes(edges, #[trigger] rings[k]),
        taking(edges, before, visited, ids, path),
        starts_at(edges, path, first),
        !before[first],
        forall|i: int| 0 <= i < first ==> #[trigger] before[i],
        path.last().end == path[0].start,
    ensures
        turns_right(f, path.last(), path[0]),
        path[0].start.y == path[0].end.y,
        path.last().start.x == path.last().end.x,
{
    lemma_first_level(edges, f, path, first);
    let a = path[0];
    let z = path.last();
    let i = ids[path.len() - 1];
    assert(edges[i] == z);
    assert(edges[first] == a);
    assert(directed(edges[i]) && directed(edges[first]));
    assert(borders(edges[i], f) && borders(edges[first], f));
    lemma_edge_cells(z, f, end_of(z));
    lemma_edge_cells(a, f, 0);
    if turn_rank(z.direction as int, a.direction as int) == 2 && !f(ahead(z).0, ahead(z).1) {
        assert(across(z, a) == ahead(z));
        assert(comes_before(path[0], path[path.len() - 1]));
        if heading(a) == 0 {
            assert(false);
        }
        let (m, k) = lemma_corner(edges, f, i, first);
        let c = edges[k];
        assert(directed(edges[k]) && borders(edges[k], f));
        assert(heading(c) == 1);
        if first <= k {
            assert(comes_before(edges[first], edges[k]));
            assert(false);
        }
        assert(before[k]);
        assert(in_rings(rings, edges[k]));
        let (g, h) = lemma_found_in(rings, edges[k]);
        let r = rings[g];
        assert(chained(rings[g]) && turns_best(edges, before, rings[g]));
        if h < r.len() - 1 {
            assert(r[h].end == r[h + 1].start);
            assert(taken(edges, before, rings[g][h + 1]));
            let n = lemma_taken_as(edges, before, r[h + 1]);
            assert(directed(edges[n]) && borders(edges[n], f));
            if turn_rank(c.direction as int, edges[n].direction as int) == 0 {
                assert(heading(edges[n]) == heading(a));
                assert(length(a) > 0 && length(edges[n]) > 0);
                lemma_one_edge(edges, f, first, n, 0, 0);
            } else {
                lemma_best_taken(edges, before, r, h, first);
            }
            assert(false);
        } else {
            assert(closes(edges, rings[g]));
            let q = choose|q: int| #[trigger] starts_at(edges, r, q);
            let n = choose|n: int| q <= n < edges.len() && edges[n] == r[h];
            assert(comes_before(edges[q], edges[n]));
            assert(borders(edges[q], f));
            assert(straight(edges[q]));
            lemma_no_way_back(c, r[0], f);
            assert(false);
        }
    }
}

/// The side that leads from one point to another.
pub open spec fn side(p: Coord, q: Coord) -> Edge {
    Edge { start: p, end: q, direction: heading(Edge { start: p, end: q, direction: 0 }) }
}

/// In `q` the way from `p` to `s` turns, and takes the first way to the right.
pub open spec fn corner_ok(f: Region, p: Coord, q: Coord, s: Coord) -> bool {
    &&& (p.x == q.x) != (q.x == s.x)
    &&& turns_right(f, side(p, q), side(q, s))
}

/// The way turns like that in each of its points but the outermost.
pub open spec fn bends(points: Seq<Coord>, f: Region) -> bool {
    forall|i: int, j: int, k: int|
        #![trigger points[i], points[j], points[k]]
        0 <= i && j == i + 1 && k == i + 2 && k < points.len() ==> corner_ok(
            f,
            points[i],
            points[j],
            points[k],
        )
}

/// And all the way round.
pub open spec fn bends_round(points: Seq<Coord>, f: Region) -> bool {
    &&& points.len() >= 2
    &&& bends(points.push(points[0]), f)
    &&& corner_ok(f, points.last(), points[0], points[1])
}

/// One more edge, which either turns or goes straight on.
pub proof fn lemma_bends_on(points: Seq<Coord>, edge: Edge, e: Edge, f: Region)
    requires
        points.len() > 0,
        rectilinear(points.push(edge.end)),
        bends(points.push(edge.end), f),
        side(points.last(), edge.end).direction == edge.direction,
        directed(edge),
        directed(e),
        borders(edge, f),
        borders(e, f),
        edge.end == e.start,
        turns_right(f, edge, e),
    ensures
        bends(
            if e.direction != edge.direction {
                points.push(edge.end).push(e.end)
            } else {
                points.push(e.end)
            },
            f,
        ),
{
    let q = points.push(edge.end);
    let n = points.len() as int;
    lemma_no_way_back(edge, e, f);
    assert(q[n - 1] == points.last() && q[n] == edge.end);
    assert(q[n - 1] != q[n]);
    let q2 = if e.direction != edge.direction {
        q.push(e.end)
    } else {
        points.push(e.end)
    };
    assert forall|i: int, j: int, k: int|
        #![trigger q2[i], q2[j], q2[k]]
        0 <= i && j == i + 1 && k == i + 2 && k < q2.len() implies corner_ok(
        f,
        q2[i],
        q2[j],
        q2[k],
    ) by {
        assert(q2[i] == q[i] && q2[j] == q[j]);
        if k < q.len() {
            assert(corner_ok(f, q[i], q[j], q[k]));
            if k < q2.len() - 1 {
                assert(q2[k] == q[k]);
            }
        }
        if k == q2.len() - 1 {
            if e.direction != edge.direction {
                assert(ahead(side(q[n - 1], q[n])) == ahead(edge));
            }
        }
    }
}

pub proof fn lemma_follows_on(f: Region, path: Seq<Edge>, e: Edge)
    requires
        path.len() > 0,
        follows_right(f, path),
        turns_right(f, path.last(), e),
    ensures
        follows_right(f, path.push(e)),
{
    let all = path.push(e);
    assert forall|i: int, j: int|
        #![trigger all[i], all[j]]
        0 <= i && j == i + 1 && j < all.len() implies turns_right(f, all[i], all[j]) by {
        assert(all[i] == path[i]);
        if j < path.len() {
            assert(all[j] == path[j]);
        }
    }
}

/// The corner in which a way comes back to its first point.
pub proof fn lemma_corner_closed(f: Region, points: Seq<Coord>, first: Edge, last: Edge)
    requires
        points.len() >= 2,
        points.last() != points[0],
        points[0] != points[1],
        points.last().x == points[0].x || points.last().y == points[0].y,
        points[0].x == points[1].x || points[0].y == points[1].y,
        directed(first),
        directed(last),
        first.start == points[0],
        last.end == points[0],
        side(points.last(), points[0]).direction == last.direction,
        side(points[0], points[1]).direction == first.direction,
        first.start.y == first.end.y,
        last.start.x == last.end.x,
        turns_right(f, last, first),
    ensures
        corner_ok(f, points.last(), points[0], points[1]),
{
    assert(ahead(side(points.last(), points[0])) == ahead(last));
}

} // verus!
