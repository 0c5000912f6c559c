//! Why taking the rightmost turn keeps a ring along one piece of the region.
//!
//! Where two cells of the region meet in a corner only, two edges arrive and two
//! leave. A right turn stays with the same cell. An edge turns left there only
//! when its right turn is gone, which happens only after an earlier ring closed in
//! that corner and so showed that both cells hang together.

use vstd::prelude::*;

use crate::boundary::{
    borders, chained, heading, hseg, left_cell, length, right_cell, ring_h, ring_v, step_h, step_v,
    straight, vseg, Edge, Region,
};
use crate::connection::{connected, one_piece};
use crate::connection::{
    lemma_along_connected, lemma_connected_back, lemma_connected_self, lemma_connected_step,
    lemma_connected_through, lemma_edge_cells,
};
use crate::contour::{bounds_region, directed, free_at, turn_rank};
use crate::pieces::in_pieces;
use crate::sums::{lemma_sum_bounds_two, lemma_sum_scale};

verus! {

/// Some edge that is equal to this one was taken.
#[verifier::opaque]
pub open spec fn taken(edges: Seq<Edge>, visited: Seq<bool>, e: Edge) -> bool {
    exists|n: int| 0 <= n < edges.len() && visited[n] && #[trigger] edges[n] == e
}

/// Wherever the chain goes on, the better turns have been taken.
#[verifier::opaque]
pub open spec fn turns_best(edges: Seq<Edge>, visited: Seq<bool>, r: Seq<Edge>) -> bool {
    forall|i: int, j: int, n: int|
        #![trigger r[i], r[j], edges[n]]
        0 <= i && j == i + 1 && j < r.len() && 0 <= n < edges.len() && edges[n].start == r[i].end
            && turn_rank(r[i].direction as int, edges[n].direction as int) < turn_rank(
            r[i].direction as int,
            r[j].direction as int,
        ) ==> visited[n]
}

/// What was passed over stays taken.
proof fn lemma_still_best(edges: Seq<Edge>, before: Seq<bool>, visited: Seq<bool>, r: Seq<Edge>)
    requires
        turns_best(edges, before, r),
        forall|n: int| 0 <= n < edges.len() && #[trigger] before[n] ==> visited[n],
    ensures
        turns_best(edges, visited, r),
{
    reveal(turns_best);
}

pub proof fn lemma_best_taken(edges: Seq<Edge>, visited: Seq<bool>, r: Seq<Edge>, i: int, n: int)
    requires
        turns_best(edges, visited, r),
        0 <= i < r.len() - 1,
        0 <= n < edges.len(),
        edges[n].start == r[i].end,
        turn_rank(r[i].direction as int, edges[n].direction as int) < turn_rank(
            r[i].direction as int,
            r[i + 1].direction as int,
        ),
    ensures
        visited[n],
{
    reveal(turns_best);
}

#[verifier::opaque]
pub open spec fn in_rings(rings: Seq<Seq<Edge>>, e: Edge) -> bool {
    exists|k: int, i: int|
        0 <= k < rings.len() && 0 <= i < rings[k].len() && #[trigger] rings[k][i] == e
}

proof fn lemma_taken(edges: Seq<Edge>, visited: Seq<bool>, n: int)
    requires
        0 <= n < edges.len(),
        visited[n],
    ensures
        taken(edges, visited, edges[n]),
{
    reveal(taken);
}

pub proof fn lemma_taken_as(edges: Seq<Edge>, visited: Seq<bool>, e: Edge) -> (n: int)
    requires
        taken(edges, visited, e),
    ensures
        0 <= n < edges.len(),
        visited[n],
        edges[n] == e,
{
    reveal(taken);
    choose|n: int| 0 <= n < edges.len() && visited[n] && #[trigger] edges[n] == e
}

proof fn lemma_in_rings(rings: Seq<Seq<Edge>>, k: int, i: int)
    requires
        0 <= k < rings.len(),
        0 <= i < rings[k].len(),
    ensures
        in_rings(rings, rings[k][i]),
{
    reveal(in_rings);
}

pub proof fn lemma_found_in(rings: Seq<Seq<Edge>>, e: Edge) -> (r: (int, int))
    requires
        in_rings(rings, e),
    ensures
        0 <= r.0 < rings.len(),
        0 <= r.1 < rings[r.0].len(),
        rings[r.0][r.1] == e,
{
    reveal(in_rings);
    choose|k: int, i: int|
        0 <= k < rings.len() && 0 <= i < rings[k].len() && #[trigger] rings[k][i] == e
}

/// The rings are closed chains of the edges that were taken.
pub open spec fn used_up(edges: Seq<Edge>, visited: Seq<bool>, rings: Seq<Seq<Edge>>) -> bool {
    &&& visited.len() == edges.len()
    &&& forall|k: int|
        0 <= k < rings.len() ==> {
            &&& (#[trigger] rings[k]).len() > 0
            &&& chained(rings[k])
            &&& rings[k].last().end == rings[k][0].start
            &&& turns_best(edges, visited, rings[k])
        }
    &&& forall|k: int, i: int|
        0 <= k < rings.len() && 0 <= i < rings[k].len() ==> taken(
            edges,
            visited,
            #[trigger] rings[k][i],
        )
    &&& forall|n: int|
        0 <= n < edges.len() && visited[n] ==> in_rings(rings, #[trigger] edges[n])
}

/// A chain is being taken, edge by edge, beside rings that are closed already.
pub open spec fn taking(
    edges: Seq<Edge>,
    before: Seq<bool>,
    visited: Seq<bool>,
    ids: Seq<int>,
    path: Seq<Edge>,
) -> bool {
    &&& before.len() == edges.len()
    &&& visited.len() == edges.len()
    &&& path.len() > 0
    &&& ids.len() == path.len()
    &&& ids.no_duplicates()
    &&& chained(path)
    &&& forall|i: int|
        0 <= i < ids.len() ==> {
            let n = #[trigger] ids[i];
            &&& 0 <= n < edges.len()
            &&& edges[n] == path[i]
            &&& !before[n]
            &&& visited[n]
        }
    &&& forall|n: int|
        #![trigger visited[n]]
        #![trigger before[n]]
        0 <= n < edges.len() ==> visited[n] == (before[n] || ids.contains(n))
    &&& turns_best(edges, visited, path)
}

pub proof fn lemma_taking_first(edges: Seq<Edge>, before: Seq<bool>, first: int)
    requires
        before.len() == edges.len(),
        0 <= first < edges.len(),
        !before[first],
    ensures
        taking(edges, before, before.update(first, true), seq![first], seq![edges[first]]),
{
    reveal(turns_best);
    let ids = seq![first];
    let visited = before.update(first, true);
    assert forall|n: int|
        #![trigger visited[n]]
        0 <= n < edges.len() implies visited[n] == (before[n] || ids.contains(n)) by {
        if n == first {
            assert(ids[0] == n);
        }
    }
}

/// The edge with the best turn is taken next.
pub proof fn lemma_taking_next(
    edges: Seq<Edge>,
    before: Seq<bool>,
    visited: Seq<bool>,
    ids: Seq<int>,
    path: Seq<Edge>,
    n: int,
)
    requires
        taking(edges, before, visited, ids, path),
        free_at(edges, visited, path.last().end, n),
        forall|i: int| #[trigger]
            free_at(edges, visited, path.last().end, i) ==> turn_rank(
                path.last().direction as int,
                edges[n].direction as int,
            ) <= turn_rank(path.last().direction as int, edges[i].direction as int),
    ensures
        taking(edges, before, visited.update(n, true), ids.push(n), path.push(edges[n])),
{
    let after = visited.update(n, true);
    let ids2 = ids.push(n);
    let path2 = path.push(edges[n]);
    let last = path.len() - 1;
    assert(!ids.contains(n));
    assert forall|i: int| 0 <= i < ids2.len() implies {
        let m = #[trigger] ids2[i];
        &&& 0 <= m < edges.len()
        &&& edges[m] == path2[i]
        &&& !before[m]
        &&& after[m]
    } by {
        if i < ids.len() {
            assert(ids2[i] == ids[i]);
        }
    }
    assert forall|m: int|
        #![trigger after[m]]
        0 <= m < edges.len() implies after[m] == (before[m] || ids2.contains(m)) by {
        assert(visited[m] == (before[m] || ids.contains(m)));
        if m == n {
            assert(ids2[ids.len() as int] == n);
        } else if ids.contains(m) {
            let i = choose|i: int| 0 <= i < ids.len() && ids[i] == m;
            assert(ids2[i] == m);
        } else if ids2.contains(m) {
            let i = choose|i: int| 0 <= i < ids2.len() && ids2[i] == m;
            if i < ids.len() {
                assert(ids[i] == m);
            }
        }
    }
    assert forall|i: int, j: int|
        #![trigger path2[i], path2[j]]
        0 <= i && j == i + 1 && j < path2.len() implies path2[i].end == path2[j].start by {
        assert(path2[i] == path[i]);
        if j < path.len() {
            assert(path2[j] == path[j]);
        }
    }
    reveal(turns_best);
    assert forall|i: int, j: int, m: int|
        #![trigger path2[i], path2[j], edges[m]]
        0 <= i && j == i + 1 && j < path2.len() && 0 <= m < edges.len() && edges[m].start
            == path2[i].end && turn_rank(path2[i].direction as int, edges[m].direction as int)
            < turn_rank(path2[i].direction as int, path2[j].direction as int) implies after[m] by {
        assert(path2[i] == path[i]);
        if j < path.len() {
            assert(path2[j] == path[j]);
            lemma_best_taken(edges, visited, path, i, m);
        } else {
            assert(i == last);
            if !visited[m] {
                assert(free_at(edges, visited, path.last().end, m));
            }
        }
    }
}

/// A chain that has come back is one ring more.
pub proof fn lemma_taking_closed(
    edges: Seq<Edge>,
    before: Seq<bool>,
    visited: Seq<bool>,
    rings: Seq<Seq<Edge>>,
    ids: Seq<int>,
    path: Seq<Edge>,
)
    requires
        used_up(edges, before, rings),
        taking(edges, before, visited, ids, path),
        path.last().end == path[0].start,
    ensures
        used_up(edges, visited, rings.push(path)),
{
    let all = rings.push(path);
    let last = rings.len() as int;
    assert(all[last] == path);
    assert forall|k: int| 0 <= k < all.len() implies {
        &&& (#[trigger] all[k]).len() > 0
        &&& chained(all[k])
        &&& all[k].last().end == all[k][0].start
        &&& turns_best(edges, visited, all[k])
    } by {
        if k < last {
            assert(all[k] == rings[k]);
            lemma_still_best(edges, before, visited, rings[k]);
        }
    }
    assert forall|k: int, i: int| 0 <= k < all.len() && 0 <= i < all[k].len() implies taken(
        edges,
        visited,
        #[trigger] all[k][i],
    ) by {
        if k < last {
            assert(all[k] == rings[k]);
            assert(taken(edges, before, rings[k][i]));
            let n = lemma_taken_as(edges, before, rings[k][i]);
            assert(before[n] && visited[n]);
            lemma_taken(edges, visited, n);
        } else {
            let n = ids[i];
            assert(visited[n] && edges[n] == path[i]);
            lemma_taken(edges, visited, n);
        }
    }
    assert forall|n: int| 0 <= n < edges.len() && visited[n] implies in_rings(
        all,
        #[trigger] edges[n],
    ) by {
        if before[n] {
            assert(in_rings(rings, edges[n]));
            let (k, i) = lemma_found_in(rings, edges[n]);
            assert(all[k] == rings[k]);
            lemma_in_rings(all, k, i);
        } else {
            assert(ids.contains(n));
            let i = choose|i: int| 0 <= i < ids.len() && ids[i] == n;
            assert(edges[n] == path[i]);
            lemma_in_rings(all, last, i);
        }
    }
}

/// Some edge runs between a cell of the region and one beside it that is not.
proof fn lemma_edge_between(edges: Seq<Edge>, f: Region, p: (int, int), q: (int, int)) -> (r: (
    int,
    int,
))
    requires
        bounds_region(edges, f),
        crate::connection::adjacent(p, q),
        f(p.0, p.1),
        !f(q.0, q.1),
    ensures
        0 <= r.0 < edges.len(),
        0 <= r.1 < length(edges[r.0]),
        right_cell(edges[r.0], r.1) == p,
        left_cell(edges[r.0], r.1) == q,
{
    if p.1 == q.1 {
        let x = if p.0 < q.0 {
            q.0
        } else {
            p.0
        };
        let y = p.1;
        assert(ring_v(edges, x, y) == step_v(f, x, y));
        let n = crate::boundary::lemma_some_edge(edges, |e: Edge| vseg(e, x, y));
        let e = edges[n];
        assert(borders(edges[n], f));
        assert(vseg(e, x, y) == step_v(f, x, y));
        let t = if heading(e) == 1 {
            y - e.start.y
        } else {
            e.start.y - 1 - y
        };
        (n, t)
    } else {
        let y = if p.1 < q.1 {
            q.1
        } else {
            p.1
        };
        let x = p.0;
        assert(ring_h(edges, x, y) == step_h(f, x, y));
        let n = crate::boundary::lemma_some_edge(edges, |e: Edge| hseg(e, x, y));
        let e = edges[n];
        assert(borders(edges[n], f));
        assert(hseg(e, x, y) == step_h(f, x, y));
        let t = if heading(e) == 0 {
            x - e.start.x
        } else {
            e.start.x - 1 - x
        };
        (n, t)
    }
}

/// Only one edge runs there.
pub proof fn lemma_one_edge(edges: Seq<Edge>, f: Region, m: int, n: int, s: int, t: int)
    requires
        bounds_region(edges, f),
        0 <= m < edges.len(),
        0 <= n < edges.len(),
        0 <= s < length(edges[m]),
        0 <= t < length(edges[n]),
        right_cell(edges[m], s) == right_cell(edges[n], t),
        left_cell(edges[m], s) == left_cell(edges[n], t),
    ensures
        m == n,
{
    let a = edges[m];
    let b = edges[n];
    assert(borders(edges[m], f) && borders(edges[n], f));
    assert(straight(a) && straight(b));
    if m != n {
        let p = right_cell(a, s);
        let q = left_cell(a, s);
        if p.1 == q.1 {
            let x = if p.0 < q.0 {
                q.0
            } else {
                p.0
            };
            let y = p.1;
            let d = step_v(f, x, y);
            let g = |e: Edge| d * vseg(e, x, y);
            assert(ring_v(edges, x, y) == d);
            assert(vseg(a, x, y) != 0 && vseg(b, x, y) != 0);
            assert forall|i: int| 0 <= i < edges.len() implies g(#[trigger] edges[i]) >= 0 by {
                assert(borders(edges[i], f));
                let u = vseg(edges[i], x, y);
                assert(d * u >= 0) by (nonlinear_arith)
                    requires
                        u == 0 || u == d,
                ;
            }
            lemma_sum_scale(edges, g, |e: Edge| vseg(e, x, y), d);
            lemma_sum_bounds_two(edges, g, m, n);
            assert(d * d == 1) by (nonlinear_arith)
                requires
                    d == 1 || d == -1,
            ;
        } else {
            let y = if p.1 < q.1 {
                q.1
            } else {
                p.1
            };
            let x = p.0;
            let d = step_h(f, x, y);
            let g = |e: Edge| d * hseg(e, x, y);
            assert(ring_h(edges, x, y) == d);
            assert(hseg(a, x, y) != 0 && hseg(b, x, y) != 0);
            assert forall|i: int| 0 <= i < edges.len() implies g(#[trigger] edges[i]) >= 0 by {
                assert(borders(edges[i], f));
                let u = hseg(edges[i], x, y);
                assert(d * u >= 0) by (nonlinear_arith)
                    requires
                        u == 0 || u == d,
                ;
            }
            lemma_sum_scale(edges, g, |e: Edge| hseg(e, x, y), d);
            lemma_sum_bounds_two(edges, g, m, n);
            assert(d * d == 1) by (nonlinear_arith)
                requires
                    d == 1 || d == -1,
            ;
        }
    }
}

/// The last unit side of an edge.
pub open spec fn end_of(e: Edge) -> int {
    length(e) - 1
}

/// The cell across the corner, where an edge turns left: beside the one on the
/// right before the turn and the one on the right behind it.
pub open spec fn across(a: Edge, b: Edge) -> (int, int) {
    let p = right_cell(a, end_of(a));
    let w = left_cell(a, end_of(a));
    let q = right_cell(b, 0);
    (p.0 + q.0 - w.0, p.1 + q.1 - w.1)
}

/// In a corner where two cells of the region meet and nothing else does, an edge
/// leaves to the right too, and one more edge arrives.
pub proof fn lemma_corner(edges: Seq<Edge>, f: Region, i: int, n: int) -> (r: (int, int))
    requires
        bounds_region(edges, f),
        forall|k: int| 0 <= k < edges.len() ==> directed(#[trigger] edges[k]),
        0 <= i < edges.len(),
        0 <= n < edges.len(),
        edges[n].start == edges[i].end,
        turn_rank(edges[i].direction as int, edges[n].direction as int) == 2,
        ({
            let z = across(edges[i], edges[n]);
            !f(z.0, z.1)
        }),
    ensures
        ({
            let (m, k) = r;
            &&& 0 <= m < edges.len()
            &&& 0 <= k < edges.len()
            &&& edges[m].start == edges[i].end
            &&& edges[k].end == edges[i].end
            &&& right_cell(edges[m], 0) == right_cell(edges[i], end_of(edges[i]))
            &&& right_cell(edges[k], end_of(edges[k])) == right_cell(edges[n], 0)
            &&& turn_rank(edges[i].direction as int, edges[m].direction as int) == 0
            &&& turn_rank(edges[k].direction as int, edges[n].direction as int) == 0
            &&& turn_rank(edges[k].direction as int, edges[m].direction as int) == 2
        }),
{
    let a = edges[i];
    let b = edges[n];
    assert(directed(edges[i]) && directed(edges[n]));
    assert(borders(edges[i], f) && borders(edges[n], f));
    let p = right_cell(a, end_of(a));
    let q = right_cell(b, 0);
    let w = left_cell(a, end_of(a));
    let z = across(a, b);
    lemma_edge_cells(a, f, end_of(a));
    lemma_edge_cells(b, f, 0);
    let (m, t) = lemma_edge_between(edges, f, p, z);
    let (k, u) = lemma_edge_between(edges, f, q, z);
    let s = edges[m];
    let c = edges[k];
    assert(directed(edges[m]) && directed(edges[k]));
    assert(borders(edges[m], f) && borders(edges[k], f));
    if t > 0 {
        lemma_edge_cells(s, f, t - 1);
        assert(right_cell(s, t - 1) == w);
        assert(false);
    }
    if u < end_of(c) {
        lemma_edge_cells(c, f, u + 1);
        assert(right_cell(c, u + 1) == w);
        assert(false);
    }
    (m, k)
}

/// Nothing else arrives there.
pub proof fn lemma_corner_arrivals(edges: Seq<Edge>, f: Region, i: int, n: int, k: int, j: int)
    requires
        bounds_region(edges, f),
        forall|k: int| 0 <= k < edges.len() ==> directed(#[trigger] edges[k]),
        0 <= i < edges.len(),
        0 <= n < edges.len(),
        0 <= k < edges.len(),
        0 <= j < edges.len(),
        edges[n].start == edges[i].end,
        edges[k].end == edges[i].end,
        edges[j].end == edges[i].end,
        turn_rank(edges[i].direction as int, edges[n].direction as int) == 2,
        turn_rank(edges[k].direction as int, edges[n].direction as int) == 0,
        ({
            let z = across(edges[i], edges[n]);
            !f(z.0, z.1)
        }),
    ensures
        j == i || j == k,
{
    let a = edges[i];
    let b = edges[n];
    let c = edges[k];
    let e = edges[j];
    assert(directed(edges[i]) && directed(edges[n]) && directed(edges[k]) && directed(edges[j]));
    assert(borders(edges[i], f) && borders(edges[n], f));
    assert(borders(edges[k], f) && borders(edges[j], f));
    lemma_edge_cells(a, f, end_of(a));
    lemma_edge_cells(b, f, 0);
    lemma_edge_cells(c, f, end_of(c));
    lemma_edge_cells(e, f, end_of(e));
    if heading(e) == heading(a) {
        lemma_one_edge(edges, f, j, i, end_of(e), end_of(a));
    } else if heading(e) == heading(c) {
        lemma_one_edge(edges, f, j, k, end_of(e), end_of(c));
    } else {
        let w = left_cell(a, end_of(a));
        let z = across(a, b);
        assert(right_cell(e, end_of(e)) == w || right_cell(e, end_of(e)) == z);
        assert(false);
    }
}

/// From the last cell on the right of an edge to all of it.
proof fn lemma_to_end(e: Edge, f: Region)
    requires
        borders(e, f),
    ensures
        connected(f, right_cell(e, 0), right_cell(e, end_of(e))),
        connected(f, right_cell(e, end_of(e)), right_cell(e, 0)),
{
    assert(straight(e));
    lemma_along_connected(e, f, end_of(e));
    lemma_connected_back(f, right_cell(e, 0), right_cell(e, end_of(e)));
}

/// Where the right turn is gone, the other edge that arrives is in a ring with it.
proof fn lemma_right_turn_gone(
    edges: Seq<Edge>,
    f: Region,
    before: Seq<bool>,
    visited: Seq<bool>,
    rings: Seq<Seq<Edge>>,
    ids: Seq<int>,
    path: Seq<Edge>,
    n: int,
    m: int,
    k: int,
)
    requires
        bounds_region(edges, f),
        forall|q: int| 0 <= q < edges.len() ==> directed(#[trigger] edges[q]),
        used_up(edges, before, rings),
        in_pieces(rings, f),
        taking(edges, before, visited, ids, path),
        path.last().end != path[0].start,
        free_at(edges, visited, path.last().end, n),
        turn_rank(path.last().direction as int, edges[n].direction as int) == 2,
        ({
            let z = across(path.last(), edges[n]);
            !f(z.0, z.1)
        }),
        0 <= m < edges.len(),
        visited[m],
        edges[m].start == path.last().end,
        0 <= k < edges.len(),
        edges[k].end == path.last().end,
        turn_rank(edges[k].direction as int, edges[n].direction as int) == 0,
        turn_rank(edges[k].direction as int, edges[m].direction as int) == 2,
    ensures
        connected(f, right_cell(edges[m], 0), right_cell(edges[k], 0)),
{
    let last = path.len() - 1;
    let i = ids[last];
    assert(edges[i] == path.last());
    assert(visited[m] == (before[m] || ids.contains(m)));
    if before[m] {
        assert(in_rings(rings, edges[m]));
        let (g, h) = lemma_found_in(rings, edges[m]);
        let r = rings[g];
        assert(chained(rings[g]) && turns_best(edges, before, rings[g]));
        let prior = if h > 0 {
            h - 1
        } else {
            r.len() - 1
        };
        assert(r[prior].end == edges[m].start);
        assert(taken(edges, before, rings[g][prior]));
        let j = lemma_taken_as(edges, before, r[prior]);
        lemma_corner_arrivals(edges, f, i, n, k, j);
        assert(!before[i]);
        assert(j == k);
        if h > 0 {
            lemma_best_taken(edges, before, r, prior, n);
            assert(visited[n] == (before[n] || ids.contains(n)));
        } else {
            assert(one_piece(f, rings[g]));
            assert(connected(f, right_cell(r[0], 0), right_cell(r[prior], 0)));
        }
    } else {
        let h = choose|h: int| 0 <= h < ids.len() && ids[h] == m;
        assert(path[h] == edges[m]);
        assert(h > 0);
        let j = ids[h - 1];
        assert(path[h - 1].end == path[h].start);
        assert(edges[j] == path[h - 1]);
        lemma_corner_arrivals(edges, f, i, n, k, j);
        assert(j != i);
        lemma_best_taken(edges, visited, path, h - 1, n);
    }
}

/// The edge that is taken next runs along the same piece.
pub proof fn lemma_same_piece(
    edges: Seq<Edge>,
    f: Region,
    before: Seq<bool>,
    visited: Seq<bool>,
    rings: Seq<Seq<Edge>>,
    ids: Seq<int>,
    path: Seq<Edge>,
    n: int,
)
    requires
        bounds_region(edges, f),
        forall|q: int| 0 <= q < edges.len() ==> directed(#[trigger] edges[q]),
        used_up(edges, before, rings),
        in_pieces(rings, f),
        taking(edges, before, visited, ids, path),
        one_piece(f, path),
        path.last().end != path[0].start,
        free_at(edges, visited, path.last().end, n),
        forall|i: int| #[trigger]
            free_at(edges, visited, path.last().end, i) ==> turn_rank(
                path.last().direction as int,
                edges[n].direction as int,
            ) <= turn_rank(path.last().direction as int, edges[i].direction as int),
    ensures
        one_piece(f, path.push(edges[n])),
{
    let last = path.len() - 1;
    let i = ids[last];
    let a = path.last();
    let b = edges[n];
    assert(edges[i] == a);
    assert(directed(edges[i]) && directed(edges[n]));
    assert(borders(edges[i], f) && borders(edges[n], f));
    let p = right_cell(a, end_of(a));
    let q = right_cell(b, 0);
    lemma_edge_cells(a, f, end_of(a));
    lemma_edge_cells(b, f, 0);
    lemma_to_end(a, f);
    let rank = turn_rank(a.direction as int, b.direction as int);
    assert(connected(f, p, q)) by {
        if rank == 0 {
            assert(p == q);
            lemma_connected_self(f, p);
        } else if rank == 1 {
            lemma_connected_step(f, p, q);
        } else if rank == 2 {
            let z = across(a, b);
            if f(z.0, z.1) {
                lemma_connected_step(f, p, z);
                lemma_connected_step(f, z, q);
                lemma_connected_through(f, p, z, q);
            } else {
                let (m, k) = lemma_corner(edges, f, i, n);
                assert(visited[m]) by {
                    if !visited[m] {
                        assert(free_at(edges, visited, a.end, m));
                    }
                }
                lemma_right_turn_gone(edges, f, before, visited, rings, ids, path, n, m, k);
                assert(borders(edges[k], f));
                lemma_to_end(edges[k], f);
                lemma_connected_through(f, p, right_cell(edges[k], 0), q);
            }
        } else {
            // Straight back would have the region on both hands.
            assert(p == left_cell(b, 0));
            assert(false);
        }
    }
    lemma_connected_through(f, right_cell(a, 0), p, q);
    let all = path.push(b);
    assert(path[last] == a);
    assert(connected(f, right_cell(path[0], 0), right_cell(path[last], 0)));
    lemma_connected_through(f, right_cell(path[0], 0), right_cell(a, 0), q);
    assert forall|h: int| 0 <= h < all.len() implies connected(
        f,
        right_cell(all[0], 0),
        right_cell(#[trigger] all[h], 0),
    ) by {
        if h < path.len() {
            assert(all[h] == path[h]);
        }
    }
}

} // verus!
