//! Why a polygon is one piece of the region: what an outer ring fills, with the
//! inner rings that it owns cut out, hangs together, and nothing beside it does.

use vstd::prelude::*;

use crate::boundary::{
    borders, boundary, heading, left_cell, outer, right_cell, ring_ok, ring_v, ring_w, step_v,
    total_v, vseg, Edge, Region,
};
use crate::boundary::{
    lemma_above, lemma_alone_v, lemma_beside, lemma_far, lemma_near, lemma_quiet_v, lemma_side,
    lemma_some_edge, lemma_step_left, lemma_values,
};
use crate::connection::{connected, leads_to, one_piece};
use crate::connection::{
    lemma_along_connected, lemma_connected_back, lemma_connected_in, lemma_connected_self,
    lemma_connected_step, lemma_connected_through,
};
use crate::nesting::{fills, owned};
use crate::nesting::{lemma_gap, lemma_gap_owned};
use crate::sums::{ind, indices, sum};
use crate::sums::{lemma_sum_change, lemma_sum_positive, lemma_sum_split, lemma_sum_zero};

verus! {

/// Each ring runs along one piece of the region.
pub open spec fn in_pieces(rings: Seq<Seq<Edge>>, f: Region) -> bool {
    forall|k: int| 0 <= k < rings.len() ==> one_piece(f, #[trigger] rings[k])
}

proof fn lemma_walk_windings(
    rings: Seq<Seq<Edge>>,
    f: Region,
    j: int,
    walk: Seq<(int, int)>,
    a: (int, int),
    b: (int, int),
)
    requires
        boundary(rings, f),
        0 <= j < rings.len(),
        leads_to(f, walk, a, b),
    ensures
        ring_w(rings[j], a.0, a.1) == ring_w(rings[j], b.0, b.1),
    decreases walk.len(),
{
    if walk.len() > 1 {
        let n = walk.len() - 1;
        let shorter = walk.drop_last();
        let c = walk[n - 1];
        assert(walk[n] == b);
        assert forall|p: int, q: int|
            #![trigger shorter[p], shorter[q]]
            0 <= p && q == p + 1 && q < shorter.len() implies crate::connection::adjacent(
            shorter[p],
            shorter[q],
        ) by {
            assert(shorter[p] == walk[p] && shorter[q] == walk[q]);
        }
        assert(leads_to(f, shorter, a, c));
        lemma_walk_windings(rings, f, j, shorter, a, c);
        assert(crate::connection::adjacent(walk[n - 1], walk[n]));
        if c.1 == b.1 {
            if c.0 == b.0 + 1 {
                lemma_beside(rings, f, j, c.0, c.1);
            } else {
                lemma_beside(rings, f, j, b.0, b.1);
            }
        } else {
            if c.1 == b.1 + 1 {
                lemma_above(rings, f, j, c.0, c.1);
            } else {
                lemma_above(rings, f, j, b.0, b.1);
            }
        }
    }
}

/// Every ring winds around the cells of one piece alike.
pub proof fn lemma_piece_windings(
    rings: Seq<Seq<Edge>>,
    f: Region,
    j: int,
    a: (int, int),
    b: (int, int),
)
    requires
        boundary(rings, f),
        0 <= j < rings.len(),
        connected(f, a, b),
    ensures
        ring_w(rings[j], a.0, a.1) == ring_w(rings[j], b.0, b.1),
{
    let walk = choose|walk: Seq<(int, int)>| #[trigger] leads_to(f, walk, a, b);
    lemma_walk_windings(rings, f, j, walk, a, b);
}

/// The ring runs along the piece of the region that a cell belongs to.
spec fn beside(rings: Seq<Seq<Edge>>, f: Region, c: (int, int), k: int) -> bool {
    connected(f, c, right_cell(rings[k][0], 0))
}

/// What the rings along one piece wind around a cell.
spec fn piece_w(rings: Seq<Seq<Edge>>, f: Region, c: (int, int), x: int, y: int) -> spec_fn(
    int,
) -> int {
    |k: int|
        if beside(rings, f, c, k) {
            ring_w(rings[k], x, y)
        } else {
            0
        }
}

spec fn piece_v(rings: Seq<Seq<Edge>>, f: Region, c: (int, int), x: int, y: int) -> spec_fn(
    int,
) -> int {
    |k: int|
        if beside(rings, f, c, k) {
            ring_v(rings[k], x, y)
        } else {
            0
        }
}

/// The rings along one piece are its whole boundary.
proof fn lemma_piece_side(rings: Seq<Seq<Edge>>, f: Region, c: (int, int), x: int, y: int)
    requires
        boundary(rings, f),
        in_pieces(rings, f),
    ensures
        sum(indices(rings.len()), piece_v(rings, f, c, x, y)) == ind(connected(f, c, (x - 1, y)))
            - ind(connected(f, c, (x, y))),
{
    let s = indices(rings.len());
    let g = piece_v(rings, f, c, x, y);
    if connected(f, c, (x - 1, y)) {
        lemma_connected_in(f, c, (x - 1, y));
    }
    if connected(f, c, (x, y)) {
        lemma_connected_in(f, c, (x, y));
    }
    if step_v(f, x, y) == 0 {
        assert forall|i: int| 0 <= i < s.len() implies g(#[trigger] s[i]) == 0 by {
            lemma_quiet_v(rings, f, i, x, y);
        }
        lemma_sum_zero(s, g);
        if f(x, y) {
            lemma_connected_step(f, (x - 1, y), (x, y));
            lemma_connected_back(f, (x - 1, y), (x, y));
            if connected(f, c, (x - 1, y)) {
                lemma_connected_through(f, c, (x - 1, y), (x, y));
            }
            if connected(f, c, (x, y)) {
                lemma_connected_through(f, c, (x, y), (x - 1, y));
            }
        }
    } else {
        assert(total_v(rings, x, y) == step_v(f, x, y));
        let m = lemma_some_ring(rings, x, y);
        let i = lemma_some_edge(rings[m], |e: Edge| vseg(e, x, y));
        let e = rings[m][i];
        assert(borders(rings[m][i], f));
        lemma_alone_v(rings, f, m, i, m, x, y);
        let zero = |k: int| 0int;
        assert forall|j: int| 0 <= j < s.len() && j != m implies zero(#[trigger] s[j]) == g(s[j]) by {
            lemma_alone_v(rings, f, m, i, j, x, y);
        }
        lemma_sum_zero(s, zero);
        lemma_sum_change(s, zero, g, m);
        assert(s[m] == m);
        let t = if heading(e) == 1 {
            y - e.start.y
        } else {
            e.start.y - 1 - y
        };
        let filled = right_cell(e, t);
        assert(filled == if f(x, y) {
            (x, y)
        } else {
            (x - 1, y)
        });
        let start = right_cell(rings[m][0], 0);
        assert(one_piece(f, rings[m]));
        assert(connected(f, start, right_cell(rings[m][i], 0)));
        lemma_along_connected(e, f, t);
        lemma_connected_through(f, start, right_cell(e, 0), filled);
        lemma_connected_back(f, start, filled);
        if beside(rings, f, c, m) {
            lemma_connected_through(f, c, start, filled);
        }
        if connected(f, c, filled) {
            lemma_connected_through(f, c, filled, start);
        }
    }
}

/// Where the region changes, some ring passes.
proof fn lemma_some_ring(rings: Seq<Seq<Edge>>, x: int, y: int) -> (m: int)
    requires
        total_v(rings, x, y) != 0,
    ensures
        0 <= m < rings.len(),
        ring_v(rings[m], x, y) != 0,
{
    let g = |r: Seq<Edge>| ring_v(r, x, y);
    if forall|k: int| 0 <= k < rings.len() ==> g(#[trigger] rings[k]) == 0 {
        lemma_sum_zero(rings, g);
    }
    choose|k: int| 0 <= k < rings.len() && g(#[trigger] rings[k]) != 0
}

/// The windings of the rings along one piece add up to one in it and to zero
/// elsewhere.
proof fn lemma_piece_total(rings: Seq<Seq<Edge>>, f: Region, c: (int, int), x: int, y: int)
    requires
        boundary(rings, f),
        in_pieces(rings, f),
    ensures
        sum(indices(rings.len()), piece_w(rings, f, c, x, y)) == ind(connected(f, c, (x, y))),
    decreases i32::MAX - x,
{
    let s = indices(rings.len());
    let w = piece_w(rings, f, c, x, y);
    if x >= i32::MAX {
        assert forall|i: int| 0 <= i < s.len() implies w(#[trigger] s[i]) == 0 by {
            assert(ring_ok(rings[i]));
            lemma_far(rings[i], x, y);
        }
        lemma_sum_zero(s, w);
        if connected(f, c, (x, y)) {
            lemma_connected_in(f, c, (x, y));
        }
    } else {
        lemma_piece_total(rings, f, c, x + 1, y);
        lemma_piece_side(rings, f, c, x + 1, y);
        let before = piece_w(rings, f, c, x + 1, y);
        let v = piece_v(rings, f, c, x + 1, y);
        assert forall|i: int| 0 <= i < s.len() implies w(#[trigger] s[i]) == before(s[i]) + v(s[i]) by {
            lemma_step_left(rings[i], x + 1, y);
        }
        lemma_sum_split(s, w, before, v);
    }
}

/// Along every piece runs an outer ring around it.
proof fn lemma_piece_outer(rings: Seq<Seq<Edge>>, f: Region, c: (int, int)) -> (k: int)
    requires
        boundary(rings, f),
        in_pieces(rings, f),
        f(c.0, c.1),
    ensures
        0 <= k < rings.len(),
        outer(rings, k),
        connected(f, c, right_cell(rings[k][0], 0)),
{
    lemma_connected_self(f, c);
    lemma_piece_total(rings, f, c, c.0, c.1);
    let k = lemma_sum_positive(indices(rings.len()), piece_w(rings, f, c, c.0, c.1));
    assert(indices(rings.len())[k] == k);
    lemma_values(rings, f, k, c.0, c.1);
    k
}

/// A cell belongs to the piece along the outer ring that fills it.
proof fn lemma_filled_piece(
    rings: Seq<Seq<Edge>>,
    f: Region,
    owner: spec_fn(int) -> int,
    k: int,
    c: (int, int),
)
    requires
        boundary(rings, f),
        in_pieces(rings, f),
        owned(rings, owner),
        fills(rings, owner, k, c.0, c.1),
        f(c.0, c.1),
    ensures
        connected(f, c, right_cell(rings[k][0], 0)),
{
    let e = lemma_piece_outer(rings, f, c);
    if e != k {
        let p = right_cell(rings[e][0], 0);
        lemma_piece_windings(rings, f, k, c, p);
        // Between the two rings lies a gap around the inner one.
        let l = left_cell(rings[e][0], 0);
        assert(ring_ok(rings[e]));
        assert(borders(rings[e][0], f));
        lemma_near(rings, f, e, 0, k, 0);
        lemma_side(rings, f, e, 0, e, 0);
        let g = lemma_gap(rings, f, k, l);
        lemma_near(rings, f, e, 0, g, 0);
        lemma_piece_windings(rings, f, g, c, p);
        let h = lemma_gap_owned(rings, f, owner, k, g, c.0, c.1);
        assert(!outer(rings, h));
        assert(false);
    }
}

/// What an outer ring fills is one whole piece of the region.
pub proof fn lemma_fills_piece(
    rings: Seq<Seq<Edge>>,
    f: Region,
    owner: spec_fn(int) -> int,
    k: int,
    a: (int, int),
    b: (int, int),
)
    requires
        boundary(rings, f),
        in_pieces(rings, f),
        owned(rings, owner),
        fills(rings, owner, k, a.0, a.1),
        f(a.0, a.1),
        f(b.0, b.1),
    ensures
        fills(rings, owner, k, b.0, b.1) <==> connected(f, a, b),
{
    let p = right_cell(rings[k][0], 0);
    if fills(rings, owner, k, b.0, b.1) {
        lemma_filled_piece(rings, f, owner, k, a);
        lemma_filled_piece(rings, f, owner, k, b);
        lemma_connected_back(f, b, p);
        lemma_connected_through(f, a, p, b);
    }
    if connected(f, a, b) {
        lemma_piece_windings(rings, f, k, a, b);
        assert forall|h: int|
            0 <= h < rings.len() && !#[trigger] outer(rings, h) && owner(h) == k implies ring_w(
            rings[h],
            b.0,
            b.1,
        ) == 0 by {
            lemma_piece_windings(rings, f, h, a, b);
        }
    }
}

} // verus!
