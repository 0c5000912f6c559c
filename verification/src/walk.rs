//! What directed edges are followed into: the chain that comes of each edge, where
//! it ends, and the corners that it leaves behind.

use vstd::prelude::*;

use crate::boundary::Edge;
use crate::contour::UnionError;
use crate::contour::{free_at, turn_rank};
use crate::geometry::Coord;

verus! {

/// How many edges were not taken yet.
pub open spec fn left_over(taken: Seq<bool>) -> nat
    decreases taken.len(),
{
    if taken.len() == 0 {
        0
    } else if taken.last() {
        left_over(taken.drop_last())
    } else {
        left_over(taken.drop_last()) + 1
    }
}

pub proof fn lemma_left_over(taken: Seq<bool>, n: int)
    requires
        0 <= n < taken.len(),
        !taken[n],
    ensures
        left_over(taken.update(n, true)) + 1 == left_over(taken),
    decreases taken.len(),
{
    let after = taken.update(n, true);
    if n == taken.len() - 1 {
        assert(after.drop_last() =~= taken.drop_last());
    } else {
        assert(after.drop_last() =~= taken.drop_last().update(n, true));
        lemma_left_over(taken.drop_last(), n);
    }
}

/// Edge number `n` comes behind `e`: of the free edges at its end it is the one
/// with the best turn, and of several such the first.
pub open spec fn goes_on(edges: Seq<Edge>, taken: Seq<bool>, e: Edge, n: int) -> bool {
    &&& free_at(edges, taken, e.end, n)
    &&& forall|i: int| #[trigger]
        free_at(edges, taken, e.end, i) ==> {
            let best = turn_rank(e.direction as int, edges[n].direction as int);
            let other = turn_rank(e.direction as int, edges[i].direction as int);
            best < other || (best == other && n <= i)
        }
}

/// The chain that a path becomes when it goes on until it is back at its start, and
/// which edges are taken then. There is none where the path ends elsewhere.
pub open spec fn walk(edges: Seq<Edge>, taken: Seq<bool>, path: Seq<Edge>) -> Option<
    (Seq<bool>, Seq<Edge>),
>
    decreases left_over(taken),
{
    if path.last().end == path[0].start {
        Some((taken, path))
    } else if exists|n: int| n < taken.len() && #[trigger] goes_on(edges, taken, path.last(), n) {
        let n = choose|n: int|
            n < taken.len() && #[trigger] goes_on(edges, taken, path.last(), n);
        proof {
            lemma_left_over(taken, n);
        }
        walk(edges, taken.update(n, true), path.push(edges[n]))
    } else {
        None
    }
}

/// Where a path starts, and where it changes its direction.
pub open spec fn corners(path: Seq<Edge>) -> Seq<Coord>
    decreases path.len(),
{
    if path.len() <= 1 {
        seq![path[0].start]
    } else if path.last().direction != path[path.len() - 2].direction {
        corners(path.drop_last()).push(path.last().start)
    } else {
        corners(path.drop_last())
    }
}

/// The corners of the chains that come of the edges from number `from` on, each
/// chain starting with the first edge that is not taken yet. The first chain that
/// does not come round, or that has too few corners to enclose anything, ends it.
pub open spec fn rings_from(edges: Seq<Edge>, taken: Seq<bool>, from: int) -> Result<
    Seq<Seq<Coord>>,
    UnionError,
>
    decreases edges.len() - from,
{
    if from >= edges.len() {
        Ok(Seq::empty())
    } else if taken[from] {
        rings_from(edges, taken, from + 1)
    } else {
        match walk(edges, taken.update(from, true), seq![edges[from]]) {
            None => Err(UnionError::OpenBoundary),
            Some((after, path)) => if corners(path).len() < 4 {
                Err(UnionError::DegenerateRing)
            } else {
                match rings_from(edges, after, from + 1) {
                    Ok(rings) => Ok(seq![corners(path)] + rings),
                    Err(error) => Err(error),
                }
            },
        }
    }
}

/// The rings that edges are followed into, or why they cannot be.
pub open spec fn rings_of(edges: Seq<Edge>) -> Result<Seq<Seq<Coord>>, UnionError> {
    rings_from(edges, Seq::new(edges.len(), |i: int| false), 0)
}

/// A path goes on with the edge that comes behind its last.
pub proof fn lemma_walk_on(edges: Seq<Edge>, taken: Seq<bool>, path: Seq<Edge>, n: int)
    requires
        taken.len() == edges.len(),
        path.last().end != path[0].start,
        goes_on(edges, taken, path.last(), n),
    ensures
        walk(edges, taken, path) == walk(edges, taken.update(n, true), path.push(edges[n])),
{
    let m = choose|m: int| m < taken.len() && #[trigger] goes_on(edges, taken, path.last(), m);
    assert(n < taken.len() && goes_on(edges, taken, path.last(), n));
    assert(m < taken.len() && goes_on(edges, taken, path.last(), m));
    assert(free_at(edges, taken, path.last().end, m));
    assert(free_at(edges, taken, path.last().end, n));
    assert(m == n);
}

/// A path on its way gets one more corner where it turns.
pub proof fn lemma_corners_push(path: Seq<Edge>, e: Edge)
    requires
        path.len() > 0,
    ensures
        corners(path.push(e)) == if e.direction != path.last().direction {
            corners(path).push(e.start)
        } else {
            corners(path)
        },
{
    assert(path.push(e).drop_last() =~= path);
}

} // verus!
