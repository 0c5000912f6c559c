//! Cells of a region that can be reached from each other through their sides.

use vstd::prelude::*;

use crate::boundary::{borders, hseg, left_cell, length, right_cell, vseg, Edge, Region};

verus! {

/// The two cells share a side.
pub open spec fn adjacent(a: (int, int), b: (int, int)) -> bool {
    ||| a.1 == b.1 && (a.0 == b.0 + 1 || b.0 == a.0 + 1)
    ||| a.0 == b.0 && (a.1 == b.1 + 1 || b.1 == a.1 + 1)
}

/// The cells lead through the region, each through a side to the next.
pub open spec fn is_walk(f: Region, walk: Seq<(int, int)>) -> bool {
    &&& walk.len() > 0
    &&& forall|i: int| 0 <= i < walk.len() ==> f((#[trigger] walk[i]).0, walk[i].1)
    &&& forall|i: int, j: int|
        #![trigger walk[i], walk[j]]
        0 <= i && j == i + 1 && j < walk.len() ==> adjacent(walk[i], walk[j])
}

pub open spec fn leads_to(f: Region, walk: Seq<(int, int)>, a: (int, int), b: (int, int)) -> bool {
    &&& is_walk(f, walk)
    &&& walk[0] == a
    &&& walk.last() == b
}

/// The two cells belong to one piece of the region.
pub open spec fn connected(f: Region, a: (int, int), b: (int, int)) -> bool {
    exists|walk: Seq<(int, int)>| #[trigger] leads_to(f, walk, a, b)
}

pub proof fn lemma_connected_self(f: Region, a: (int, int))
    requires
        f(a.0, a.1),
    ensures
        connected(f, a, a),
{
    assert(leads_to(f, seq![a], a, a));
}

pub proof fn lemma_connected_step(f: Region, a: (int, int), b: (int, int))
    requires
        f(a.0, a.1),
        f(b.0, b.1),
        adjacent(a, b),
    ensures
        connected(f, a, b),
{
    assert(leads_to(f, seq![a, b], a, b));
}

pub proof fn lemma_connected_back(f: Region, a: (int, int), b: (int, int))
    requires
        connected(f, a, b),
    ensures
        connected(f, b, a),
{
    let walk = choose|walk: Seq<(int, int)>| #[trigger] leads_to(f, walk, a, b);
    let back = walk.reverse();
    let n = walk.len() as int;
    assert forall|i: int, j: int|
        #![trigger back[i], back[j]]
        0 <= i && j == i + 1 && j < back.len() implies adjacent(back[i], back[j]) by {
        assert(back[i] == walk[n - 1 - i] && back[j] == walk[n - 1 - j]);
        assert(adjacent(walk[n - 1 - j], walk[n - 1 - i]));
    }
    assert forall|i: int| 0 <= i < back.len() implies f((#[trigger] back[i]).0, back[i].1) by {
        assert(back[i] == walk[n - 1 - i]);
    }
    assert(back[0] == walk[n - 1] && back.last() == walk[0]);
    assert(leads_to(f, back, b, a));
}

pub proof fn lemma_connected_through(f: Region, a: (int, int), b: (int, int), c: (int, int))
    requires
        connected(f, a, b),
        connected(f, b, c),
    ensures
        connected(f, a, c),
{
    let first = choose|walk: Seq<(int, int)>| #[trigger] leads_to(f, walk, a, b);
    let second = choose|walk: Seq<(int, int)>| #[trigger] leads_to(f, walk, b, c);
    let rest = second.skip(1);
    let walk = first + rest;
    let n = first.len() as int;
    assert forall|i: int| 0 <= i < walk.len() implies f((#[trigger] walk[i]).0, walk[i].1) by {
        if i < n {
            assert(walk[i] == first[i]);
        } else {
            assert(walk[i] == second[i - n + 1]);
        }
    }
    assert forall|i: int, j: int|
        #![trigger walk[i], walk[j]]
        0 <= i && j == i + 1 && j < walk.len() implies adjacent(walk[i], walk[j]) by {
        if j < n {
            assert(walk[i] == first[i] && walk[j] == first[j]);
        } else {
            assert(walk[j] == second[j - n + 1]);
            if i < n {
                assert(walk[i] == first.last());
                assert(second[0] == b && j - n + 1 == 1);
            } else {
                assert(walk[i] == second[i - n + 1]);
            }
        }
    }
    assert(walk[0] == first[0]);
    if rest.len() == 0 {
        assert(second.len() == 1);
        assert(walk =~= first);
    } else {
        assert(walk.last() == second.last());
    }
    assert(leads_to(f, walk, a, c));
}

/// Cells that are connected belong to the region.
pub proof fn lemma_connected_in(f: Region, a: (int, int), b: (int, int))
    requires
        connected(f, a, b),
    ensures
        f(a.0, a.1),
        f(b.0, b.1),
{
    let walk = choose|walk: Seq<(int, int)>| #[trigger] leads_to(f, walk, a, b);
    assert(walk.last() == walk[walk.len() - 1]);
}

/// The region lies on the right of every unit side of an edge that borders it, and
/// not on the left.
pub proof fn lemma_edge_cells(e: Edge, f: Region, t: int)
    requires
        borders(e, f),
        0 <= t < length(e),
    ensures
        ({
            let c = right_cell(e, t);
            f(c.0, c.1)
        }),
        ({
            let c = left_cell(e, t);
            !f(c.0, c.1)
        }),
{
    match crate::boundary::heading(e) {
        0 => {
            assert(hseg(e, e.start.x + t, e.start.y as int) == 1);
        },
        1 => {
            assert(vseg(e, e.start.x as int, e.start.y + t) == 1);
        },
        2 => {
            assert(hseg(e, e.start.x - 1 - t, e.start.y as int) == -1);
        },
        _ => {
            assert(vseg(e, e.start.x as int, e.start.y - 1 - t) == -1);
        },
    }
}

/// What lies along the right of an edge is connected.
pub proof fn lemma_along_connected(e: Edge, f: Region, t: int)
    requires
        borders(e, f),
        0 <= t < length(e),
    ensures
        connected(f, right_cell(e, 0), right_cell(e, t)),
    decreases t,
{
    lemma_edge_cells(e, f, t);
    if t == 0 {
        lemma_connected_self(f, right_cell(e, 0));
    } else {
        lemma_along_connected(e, f, t - 1);
        lemma_edge_cells(e, f, t - 1);
        lemma_connected_step(f, right_cell(e, t - 1), right_cell(e, t));
        lemma_connected_through(f, right_cell(e, 0), right_cell(e, t - 1), right_cell(e, t));
    }
}

/// Every edge beside a chain of edges has the same piece of the region on its
/// right.
pub open spec fn one_piece(f: Region, r: Seq<Edge>) -> bool {
    forall|i: int|
        0 <= i < r.len() ==> connected(f, right_cell(r[0], 0), right_cell(#[trigger] r[i], 0))
}

} // verus!
