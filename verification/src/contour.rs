//! Following directed edges from corner to corner until they close into rings.

use vstd::prelude::*;

use crate::boundary::lemma_telescope;
use crate::boundary::{
    borders, chained, heading, hseg, right_cell, ring_h, ring_v, step_h, step_v, straight, vseg,
    Edge, Region,
};
use crate::connection::one_piece;
use crate::connection::{lemma_connected_self, lemma_edge_cells};
use crate::corners::{
    all_keep_right, bends, bends_round, follows_right, keeps_right, side, swept,
};
use crate::corners::{
    lemma_bends_on, lemma_corner_closed, lemma_follows_on, lemma_right_closed, lemma_right_next,
};
use crate::geometry::{rings_view, step_sum, Coord, LineString};
use crate::pieces::in_pieces;
use crate::sort::{ascending, lemma_same_elements, sort, Ordered};
use crate::sums::{ind, indices, sum};
use crate::sums::{
    lemma_sum_change, lemma_sum_indices, lemma_sum_positive, lemma_sum_push, lemma_sum_same,
    lemma_sum_split, lemma_sum_zero,
};
use crate::turning::{lemma_same_piece, lemma_taking_closed, lemma_taking_first, lemma_taking_next};
use crate::turning::{taking, used_up};
use crate::walk::{corners, goes_on, rings_from, rings_of, walk};
use crate::walk::{lemma_corners_push, lemma_walk_on};

verus! {

/// Why edges or rings do not make polygons.
#[derive(Clone, Copy, Debug, PartialEq, Eq, Structural)]
pub enum UnionError {
    OpenBoundary,
    DegenerateRing,
    ZeroAreaRing,
    HoleWithoutExterior,
}

/// How much an outgoing direction is preferred behind an incoming one: a right
/// turn comes first, then straight on, a left turn, and the way back.
pub open spec fn turn_rank(incoming: int, outgoing: int) -> int {
    let turn = (outgoing + 4 - incoming) % 4;
    if turn == 1 {
        0
    } else if turn == 0 {
        1
    } else if turn == 3 {
        2
    } else {
        3
    }
}

pub fn turn_priority(incoming: u8, outgoing: u8) -> (rank: u8)
    requires
        outgoing <= 251,
        incoming <= outgoing + 4,
    ensures
        rank == turn_rank(incoming as int, outgoing as int),
{
    match (outgoing + 4 - incoming) % 4 {
        1 => 0,
        0 => 1,
        3 => 2,
        _ => 3,
    }
}

/// Where an edge starts, and which one it is.
#[derive(Clone, Copy, Debug, PartialEq, Eq, Structural)]
pub struct Outgoing {
    pub x: i32,
    pub y: i32,
    pub index: usize,
}

impl Ordered for Outgoing {
    open spec fn leq(self, other: Self) -> bool {
        self.x < other.x || (self.x == other.x && (self.y < other.y || (self.y == other.y
            && self.index <= other.index)))
    }

    proof fn lemma_total(a: Self, b: Self) {
    }

    proof fn lemma_transitive(a: Self, b: Self, c: Self) {
    }

    fn at_most(&self, other: &Self) -> (r: bool) {
        self.x < other.x || (self.x == other.x && (self.y < other.y || (self.y == other.y
            && self.index <= other.index)))
    }
}

/// The table lists each edge at its start, in order.
spec fn lists(starts: Seq<Outgoing>, edges: Seq<Edge>) -> bool {
    &&& ascending(starts)
    &&& forall|k: int|
        0 <= k < starts.len() ==> {
            let s = #[trigger] starts[k];
            &&& s.index < edges.len()
            &&& edges[s.index as int].start == (Coord { x: s.x, y: s.y })
        }
    &&& forall|i: int|
        0 <= i < edges.len() ==> starts.contains(
            Outgoing { x: (#[trigger] edges[i]).start.x, y: edges[i].start.y, index: i as usize },
        )
}

fn list_starts(edges: &Vec<Edge>) -> (starts: Vec<Outgoing>)
    ensures
        lists(starts@, edges@),
{
    let mut starts: Vec<Outgoing> = Vec::new();
    let mut i: usize = 0;
    while i < edges.len()
        invariant
            i <= edges@.len(),
            starts@.len() == i,
            forall|k: int|
                0 <= k < i ==> #[trigger] starts@[k] == (Outgoing {
                    x: edges@[k].start.x,
                    y: edges@[k].start.y,
                    index: k as usize,
                }),
        decreases edges@.len() - i,
    {
        let start = edges[i].start;
        starts.push(Outgoing { x: start.x, y: start.y, index: i });
        i = i + 1;
    }
    let ghost unsorted = starts@;
    let sorted = sort(starts);
    proof {
        lemma_same_elements(sorted@, unsorted);
        assert forall|k: int| 0 <= k < sorted@.len() implies {
            let s = #[trigger] sorted@[k];
            &&& s.index < edges@.len()
            &&& edges@[s.index as int].start == (Coord { x: s.x, y: s.y })
        } by {
            assert(sorted@.contains(sorted@[k]));
            let q = choose|q: int| 0 <= q < unsorted.len() && unsorted[q] == sorted@[k];
            assert(unsorted[q] == sorted@[k]);
        }
        assert forall|j: int| 0 <= j < edges@.len() implies sorted@.contains(
            Outgoing { x: (#[trigger] edges@[j]).start.x, y: edges@[j].start.y, index: j as usize },
        ) by {
            assert(unsorted.contains(unsorted[j]));
        }
    }
    sorted
}

/// The first place in the table at or behind a point.
fn first_from(starts: &Vec<Outgoing>, at: Coord) -> (place: usize)
    requires
        ascending(starts@),
    ensures
        place <= starts@.len(),
        forall|k: int|
            0 <= k < place ==> (#[trigger] starts@[k]).x < at.x || (starts@[k].x == at.x
                && starts@[k].y < at.y),
        forall|k: int|
            place <= k < starts@.len() ==> !((#[trigger] starts@[k]).x < at.x || (starts@[k].x
                == at.x && starts@[k].y < at.y)),
{
    let mut low: usize = 0;
    let mut high: usize = starts.len();
    while low < high
        invariant
            ascending(starts@),
            low <= high <= starts@.len(),
            forall|k: int|
                0 <= k < low ==> (#[trigger] starts@[k]).x < at.x || (starts@[k].x == at.x
                    && starts@[k].y < at.y),
            forall|k: int|
                high <= k < starts@.len() ==> !((#[trigger] starts@[k]).x < at.x || (starts@[k].x
                    == at.x && starts@[k].y < at.y)),
        decreases high - low,
    {
        let middle: usize = low + (high - low) / 2;
        let probe = starts[middle];
        let ghost m = middle as int;
        if probe.x < at.x || (probe.x == at.x && probe.y < at.y) {
            proof {
                assert forall|k: int| 0 <= k < m implies (#[trigger] starts@[k]).leq(starts@[m]) by {
                }
            }
            low = middle + 1;
        } else {
            proof {
                assert forall|k: int| m < k < starts@.len() implies starts@[m].leq(
                    #[trigger] starts@[k],
                ) by {
                }
            }
            high = middle;
        }
    }
    low
}

/// The edge may be taken from the point: it starts there and was not taken yet.
pub open spec fn free_at(edges: Seq<Edge>, visited: Seq<bool>, at: Coord, i: int) -> bool {
    &&& 0 <= i < edges.len()
    &&& !visited[i]
    &&& edges[i].start == at
}

/// Picks the free edge with the best turn, and of several the first.
fn next_edge(
    edges: &Vec<Edge>,
    starts: &Vec<Outgoing>,
    visited: &Vec<bool>,
    at: Coord,
    direction: u8,
) -> (next: Option<usize>)
    requires
        lists(starts@, edges@),
        visited@.len() == edges@.len(),
        direction < 4,
        forall|i: int| 0 <= i < edges@.len() ==> (#[trigger] edges@[i]).direction < 4,
    ensures
        match next {
            Some(n) => {
                &&& free_at(edges@, visited@, at, n as int)
                &&& forall|i: int| #[trigger]
                    free_at(edges@, visited@, at, i) ==> {
                        let best = turn_rank(direction as int, edges@[n as int].direction as int);
                        let other = turn_rank(direction as int, edges@[i].direction as int);
                        best < other || (best == other && n <= i)
                    }
            },
            None => forall|i: int| !#[trigger] free_at(edges@, visited@, at, i),
        },
{
    let count: usize = edges.len();
    let mut place: usize = first_from(starts, at);
    let ghost from = place;
    let mut best: Option<usize> = None;
    let mut best_rank: u8 = 4;
    while place < starts.len() && starts[place].x == at.x && starts[place].y == at.y
        invariant
            lists(starts@, edges@),
            visited@.len() == edges@.len(),
            direction < 4,
            forall|i: int| 0 <= i < edges@.len() ==> (#[trigger] edges@[i]).direction < 4,
            count == edges@.len(),
            from <= place <= starts@.len(),
            forall|k: int|
                0 <= k < from ==> (#[trigger] starts@[k]).x < at.x || (starts@[k].x == at.x
                    && starts@[k].y < at.y),
            forall|k: int|
                from <= k < place ==> (#[trigger] starts@[k]).x == at.x && starts@[k].y == at.y,
            match best {
                Some(n) => {
                    &&& free_at(edges@, visited@, at, n as int)
                    &&& best_rank == turn_rank(direction as int, edges@[n as int].direction as int)
                    &&& exists|k: int| from <= k < place && (#[trigger] starts@[k]).index == n
                },
                None => true,
            },
            forall|k: int|
                from <= k < place && !visited@[(#[trigger] starts@[k]).index as int] ==> match best {
                    Some(n) => {
                        let other = turn_rank(
                            direction as int,
                            edges@[starts@[k].index as int].direction as int,
                        );
                        best_rank < other || (best_rank == other && n <= starts@[k].index)
                    },
                    None => false,
                },
        decreases starts@.len() - place,
    {
        let index: usize = starts[place].index;
        let ghost was = best;
        if !visited[index] {
            let rank: u8 = turn_priority(direction, edges[index].direction);
            let better = match best {
                Some(_) => rank < best_rank,
                None => true,
            };
            if better {
                best = Some(index);
                best_rank = rank;
            }
            proof {
                if let Some(n) = was {
                    let k = choose|k: int| from <= k < place && (#[trigger] starts@[k]).index == n;
                    assert(starts@[k].leq(starts@[place as int]));
                }
                assert(starts@[place as int].index == index);
            }
        }
        place = place + 1;
    }
    proof {
        assert forall|i: int| #[trigger] free_at(edges@, visited@, at, i) implies exists|k: int|
            from <= k < place && (#[trigger] starts@[k]).index == i by {
            let entry = Outgoing { x: edges@[i].start.x, y: edges@[i].start.y, index: i as usize };
            assert(starts@.contains(entry));
            let k = choose|k: int| 0 <= k < starts@.len() && starts@[k] == entry;
            assert(starts@[k] == entry);
            if k >= place {
                assert(starts@[place as int].leq(starts@[k]) || k == place);
                assert(false);
            }
            assert(from <= k < place && starts@[k].index == i);
        }
    }
    best
}

/// The sum of a function over the edges of all rings.
pub open spec fn rings_sum(rings: Seq<Seq<Edge>>, g: spec_fn(Edge) -> int) -> int {
    sum(rings, |r: Seq<Edge>| sum(r, g))
}

/// The sum of a function over the edges that were not taken yet.
spec fn pending(edges: Seq<Edge>, visited: Seq<bool>, g: spec_fn(Edge) -> int) -> int {
    sum(
        indices(edges.len()),
        |i: int|
            if visited[i] {
                0
            } else {
                g(edges[i])
            },
    )
}

proof fn lemma_pending_all(edges: Seq<Edge>, visited: Seq<bool>, g: spec_fn(Edge) -> int)
    requires
        forall|i: int| 0 <= i < edges.len() ==> !#[trigger] visited[i],
    ensures
        pending(edges, visited, g) == sum(edges, g),
{
    lemma_sum_indices(edges, g);
    let s = indices(edges.len());
    assert forall|i: int| 0 <= i < s.len() implies !visited[#[trigger] s[i]] by {
        assert(s[i] == i);
        assert(!visited[i]);
    }
    lemma_sum_same(
        s,
        |i: int| g(edges[i]),
        |i: int|
            if visited[i] {
                0
            } else {
                g(edges[i])
            },
    );
}

proof fn lemma_pending_none(edges: Seq<Edge>, visited: Seq<bool>, g: spec_fn(Edge) -> int)
    requires
        forall|i: int| 0 <= i < edges.len() ==> #[trigger] visited[i],
    ensures
        pending(edges, visited, g) == 0,
{
    let s = indices(edges.len());
    assert forall|i: int| 0 <= i < s.len() implies visited[#[trigger] s[i]] by {
        assert(s[i] == i);
        assert(visited[i]);
    }
    lemma_sum_zero(
        s,
        |i: int|
            if visited[i] {
                0
            } else {
                g(edges[i])
            },
    );
}

proof fn lemma_pending_visit(
    edges: Seq<Edge>,
    visited: Seq<bool>,
    k: int,
    g: spec_fn(Edge) -> int,
)
    requires
        visited.len() == edges.len(),
        0 <= k < edges.len(),
        !visited[k],
    ensures
        pending(edges, visited.update(k, true), g) == pending(edges, visited, g) - g(edges[k]),
{
    let s = indices(edges.len());
    let after = visited.update(k, true);
    lemma_sum_change(
        s,
        |i: int|
            if visited[i] {
                0
            } else {
                g(edges[i])
            },
        |i: int|
            if after[i] {
                0
            } else {
                g(edges[i])
            },
        k,
    );
}

proof fn lemma_pending_positive(
    edges: Seq<Edge>,
    visited: Seq<bool>,
    g: spec_fn(Edge) -> int,
) -> (k: int)
    requires
        pending(edges, visited, g) > 0,
    ensures
        0 <= k < edges.len(),
        !visited[k],
        g(edges[k]) > 0,
{
    lemma_sum_positive(
        indices(edges.len()),
        |i: int|
            if visited[i] {
                0
            } else {
                g(edges[i])
            },
    )
}

/// The edges are the whole boundary of a region.
pub open spec fn bounds_region(edges: Seq<Edge>, f: Region) -> bool {
    &&& forall|i: int| 0 <= i < edges.len() ==> borders(#[trigger] edges[i], f)
    &&& forall|x: int, y: int| #[trigger] ring_v(edges, x, y) == step_v(f, x, y)
    &&& forall|x: int, y: int| #[trigger] ring_h(edges, x, y) == step_h(f, x, y)
}

/// As many edges of a boundary start in a point as end there.
proof fn lemma_balanced(edges: Seq<Edge>, f: Region, u: Coord)
    requires
        bounds_region(edges, f),
    ensures
        sum(edges, surplus(u)) == 0,
{
    let x = u.x as int;
    let y = u.y as int;
    let g = surplus(u);
    let v0 = |e: Edge| vseg(e, x, y);
    let v1 = |e: Edge| vseg(e, x, y - 1);
    let h0 = |e: Edge| hseg(e, x, y);
    let h1 = |e: Edge| hseg(e, x - 1, y);
    let gv = |e: Edge| g(e) + v1(e);
    let gvh = |e: Edge| g(e) + v1(e) + h1(e);
    assert forall|i: int| 0 <= i < edges.len() implies gvh(#[trigger] edges[i]) == v0(edges[i])
        + h0(edges[i]) by {
        assert(borders(edges[i], f));
        assert(straight(edges[i]));
    }
    lemma_sum_split(edges, gvh, gv, h1);
    lemma_sum_split(edges, gv, g, v1);
    lemma_sum_split(edges, gvh, v0, h0);
    assert(ring_v(edges, x, y) == step_v(f, x, y));
    assert(ring_v(edges, x, y - 1) == step_v(f, x, y - 1));
    assert(ring_h(edges, x, y) == step_h(f, x, y));
    assert(ring_h(edges, x - 1, y) == step_h(f, x - 1, y));
}

/// An edge of a boundary is never followed by one that leads straight back.
pub proof fn lemma_no_way_back(a: Edge, b: Edge, f: Region)
    requires
        borders(a, f),
        borders(b, f),
        a.end == b.start,
    ensures
        heading(a) == heading(b) || (a.start.x == a.end.x) != (b.start.x == b.end.x),
{
    let x = b.start.x as int;
    let y = b.start.y as int;
    assert(hseg(a, x - 1, y) != 0 ==> hseg(a, x - 1, y) == step_h(f, x - 1, y));
    assert(hseg(b, x - 1, y) != 0 ==> hseg(b, x - 1, y) == step_h(f, x - 1, y));
    assert(hseg(a, x, y) != 0 ==> hseg(a, x, y) == step_h(f, x, y));
    assert(hseg(b, x, y) != 0 ==> hseg(b, x, y) == step_h(f, x, y));
    assert(vseg(a, x, y - 1) != 0 ==> vseg(a, x, y - 1) == step_v(f, x, y - 1));
    assert(vseg(b, x, y - 1) != 0 ==> vseg(b, x, y - 1) == step_v(f, x, y - 1));
    assert(vseg(a, x, y) != 0 ==> vseg(a, x, y) == step_v(f, x, y));
    assert(vseg(b, x, y) != 0 ==> vseg(b, x, y) == step_v(f, x, y));
}

/// A function of a step that does not change when a straight way is cut in two.
pub open spec fn additive(f: spec_fn(Coord, Coord) -> int) -> bool {
    forall|p: Coord, q: Coord, s: Coord| #[trigger]
        on_the_way(p, q, s) ==> f(p, q) + f(q, s) == f(p, s)
}

/// The way from `p` to `s` leads straight through `q`.
pub open spec fn on_the_way(p: Coord, q: Coord, s: Coord) -> bool {
    ||| p.x == q.x == s.x && (p.y < q.y < s.y || p.y > q.y > s.y)
    ||| p.y == q.y == s.y && (p.x < q.x < s.x || p.x > q.x > s.x)
}

/// Consecutive points differ in one coordinate.
pub open spec fn rectilinear(points: Seq<Coord>) -> bool {
    forall|i: int, j: int|
        #![trigger points[i], points[j]]
        0 <= i && j == i + 1 && j < points.len() ==> points[i] != points[j] && (points[i].x
            == points[j].x || points[i].y == points[j].y)
}

/// Every other step leads along the other axis.
spec fn alternating(points: Seq<Coord>) -> bool {
    forall|i: int, j: int, k: int|
        #![trigger points[i], points[j], points[k]]
        0 <= i && j == i + 1 && k == i + 2 && k < points.len() ==> (points[i].x == points[j].x)
            != (points[j].x == points[k].x)
}

/// The corners stand for the ring: they lead the same way round, and enclose
/// something.
pub open spec fn outlines(points: Seq<Coord>, r: Seq<Edge>) -> bool {
    &&& points.len() >= 4
    &&& side(points[0], points[1]).direction == r[0].direction
    &&& has_corners(points, r)
}

/// The corners lead the same way round as the ring.
pub open spec fn has_corners(points: Seq<Coord>, r: Seq<Edge>) -> bool {
    &&& points.len() > 0
    &&& points[0] == r[0].start
    &&& rectilinear(points.push(points[0]))
    &&& forall|f: spec_fn(Coord, Coord) -> int|
        additive(f) ==> #[trigger] step_sum(points, points.len(), f) == sum(
            r,
            |e: Edge| f(e.start, e.end),
        )
}

/// Some closed chain of the edges leads forth and back, with too few corners to
/// enclose anything.
pub open spec fn has_degenerate(edges: Seq<Edge>) -> bool {
    exists|points: Seq<Coord>, r: Seq<Edge>| #[trigger]
        has_corners(points, r) && closes(edges, r) && points.len() < 4
}

/// As many edges start in every point as end there.
pub open spec fn balanced(edges: Seq<Edge>) -> bool {
    forall|u: Coord| sum(edges, #[trigger] surplus(u)) == 0
}

/// A closed chain of given edges, none of which stands before its first.
pub open spec fn closes(edges: Seq<Edge>, r: Seq<Edge>) -> bool {
    &&& r.len() > 0
    &&& chained(r)
    &&& r.last().end == r[0].start
    &&& exists|m: int| #[trigger] starts_at(edges, r, m)
}

/// The chain's first edge is number `m`, and the others come later.
pub open spec fn starts_at(edges: Seq<Edge>, r: Seq<Edge>, m: int) -> bool {
    &&& 0 <= m < edges.len()
    &&& r[0] == edges[m]
    &&& forall|i: int|
        0 <= i < r.len() ==> exists|n: int| m <= n < edges.len() && edges[n] == #[trigger] r[i]
}

/// The rings use up the edges, each once and in their order, and the contours
/// outline the rings. Each ring keeps to one piece of the region that the edges
/// bound, and takes the first way to the right wherever it has a choice.
pub open spec fn traced(
    edges: Seq<Edge>,
    rings: Seq<Seq<Edge>>,
    contours: Seq<LineString>,
) -> bool {
    &&& rings.len() == contours.len()
    &&& forall|k: int| 0 <= k < rings.len() ==> closes(edges, #[trigger] rings[k])
    &&& forall|k: int|
        0 <= k < rings.len() ==> outlines((#[trigger] contours[k]).0@, rings[k])
    &&& forall|g: spec_fn(Edge) -> int| #[trigger] sum(edges, g) == rings_sum(rings, g)
    &&& forall|f: Region| #[trigger] bounds_region(edges, f) ==> in_pieces(rings, f)
    &&& forall|k: int, l: int|
        #![trigger rings[k], rings[l]]
        0 <= k < l < rings.len() ==> in_turn(edges, rings[k], rings[l])
    &&& forall|f: Region, k: int|
        #![trigger swept(edges, f), contours[k]]
        swept(edges, f) && 0 <= k < contours.len() ==> bends_round(contours[k].0@, f)
}

/// One chain starts with an earlier edge than the other.
pub open spec fn in_turn(edges: Seq<Edge>, r: Seq<Edge>, s: Seq<Edge>) -> bool {
    exists|m: int, n: int| #[trigger]
        starts_at(edges, r, m) && #[trigger] starts_at(edges, s, n) && m < n
}

/// The contours outline rings that use up the edges.
pub open spec fn are_contours(edges: Seq<Edge>, contours: Seq<LineString>) -> bool {
    exists|rings: Seq<Seq<Edge>>| #[trigger] traced(edges, rings, contours)
}

/// What holds while one ring is being followed: the edges taken so far, and the
/// corners found on the way.
spec fn following(
    edges: Seq<Edge>,
    first: int,
    path: Seq<Edge>,
    points: Seq<Coord>,
    edge: Edge,
) -> bool {
    &&& path.len() > 0
    &&& path.last() == edge
    &&& chained(path)
    &&& starts_at(edges, path, first)
    &&& points.len() > 0
    &&& points[0] == path[0].start
    &&& rectilinear(points.push(edge.end))
    &&& heading(Edge { start: points.last(), end: edge.end, direction: 0 }) == edge.direction
    &&& side(points[0], points.push(edge.end)[1]).direction == path[0].direction
    &&& forall|f: spec_fn(Coord, Coord) -> int|
        additive(f) ==> #[trigger] step_sum(points, (points.len() - 1) as nat, f) + f(
            points.last(),
            edge.end,
        ) == sum(path, |e: Edge| f(e.start, e.end))
}

/// Directed edges as the sweep makes them.
pub open spec fn directed(e: Edge) -> bool {
    straight(e) && e.direction == heading(e)
}

proof fn lemma_step_sum_extend(points: Seq<Coord>, p: Coord, f: spec_fn(Coord, Coord) -> int)
    requires
        points.len() > 0,
    ensures
        step_sum(points.push(p), points.len(), f) == step_sum(
            points,
            (points.len() - 1) as nat,
            f,
        ) + f(points.last(), p),
{
    let q = points.push(p);
    let n = points.len();
    crate::geometry::lemma_prefix_sum(points, q, (n - 1) as nat, f);
    let m = n as int;
    assert(m % (m + 1) == m) by (nonlinear_arith)
        requires
            m > 0,
    ;
    assert(q[m] == p);
    assert(q[m - 1] == points.last());
}

proof fn lemma_follow_first(edges: Seq<Edge>, first: int)
    requires
        0 <= first < edges.len(),
        directed(edges[first]),
    ensures
        following(edges, first, seq![edges[first]], seq![edges[first].start], edges[first]),
{
    let e = edges[first];
    let path = seq![e];
    let points = seq![e.start];
    assert(points.push(e.end) =~= seq![e.start, e.end]);
    assert forall|i: int| 0 <= i < path.len() implies exists|n: int|
        first <= n < edges.len() && edges[n] == #[trigger] path[i] by {
        assert(edges[first] == path[i]);
    }
    assert forall|f: spec_fn(Coord, Coord) -> int| additive(f) implies #[trigger] step_sum(
        points,
        (points.len() - 1) as nat,
        f,
    ) + f(points.last(), e.end) == sum(path, |e: Edge| f(e.start, e.end)) by {
        let g = |e: Edge| f(e.start, e.end);
        assert(path =~= Seq::<Edge>::empty().push(e));
        lemma_sum_push(Seq::<Edge>::empty(), e, g);
    }
}

proof fn lemma_follow_next(
    edges: Seq<Edge>,
    first: int,
    path: Seq<Edge>,
    points: Seq<Coord>,
    edge: Edge,
    next: int,
)
    requires
        following(edges, first, path, points, edge),
        directed(edge),
        first <= next < edges.len(),
        directed(edges[next]),
        edges[next].start == edge.end,
    ensures
        following(
            edges,
            first,
            path.push(edges[next]),
            if edges[next].direction != edge.direction {
                points.push(edge.end)
            } else {
                points
            },
            edges[next],
        ),
{
    let e = edges[next];
    let turned = e.direction != edge.direction;
    let points2 = if turned {
        points.push(edge.end)
    } else {
        points
    };
    let path2 = path.push(e);
    let n = points.len();
    let q = points.push(edge.end);
    let q2 = points2.push(e.end);
    assert(path2[0] == path[0]);
    assert(path[path.len() - 1] == edge);
    assert(chained(path2)) by {
        assert forall|i: int, j: int|
            #![trigger path2[i], path2[j]]
            0 <= i && j == i + 1 && j < path2.len() implies path2[i].end == path2[j].start by {
            assert(path2[i] == path[i]);
            if j < path.len() {
                assert(path2[j] == path[j]);
            }
        }
    }
    assert forall|i: int| 0 <= i < path2.len() implies exists|m: int|
        first <= m < edges.len() && edges[m] == #[trigger] path2[i] by {
        if i < path.len() {
            assert(path2[i] == path[i]);
            let m = choose|m: int| first <= m < edges.len() && edges[m] == path[i];
            assert(edges[m] == path2[i]);
        } else {
            assert(edges[next] == path2[i]);
        }
    }
    assert(q[n - 1] == points.last() && q[n as int] == edge.end);
    assert(points.last() != edge.end);
    assert(rectilinear(q2)) by {
        assert forall|i: int, j: int|
            #![trigger q2[i], q2[j]]
            0 <= i && j == i + 1 && j < q2.len() implies q2[i] != q2[j] && (q2[i].x == q2[j].x
            || q2[i].y == q2[j].y) by {
            assert(q2[i] == q[i]);
            if j < q2.len() - 1 {
                assert(q2[j] == q[j]);
            }
        }
    }
    assert forall|f: spec_fn(Coord, Coord) -> int| additive(f) implies #[trigger] step_sum(
        points2,
        (points2.len() - 1) as nat,
        f,
    ) + f(points2.last(), e.end) == sum(path2, |e: Edge| f(e.start, e.end)) by {
        let g = |e: Edge| f(e.start, e.end);
        lemma_sum_push(path, e, g);
        assert(step_sum(points, (points.len() - 1) as nat, f) + f(points.last(), edge.end) == sum(
            path,
            g,
        ));
        if turned {
            lemma_step_sum_extend(points, edge.end, f);
        } else {
            assert(on_the_way(points.last(), edge.end, e.end));
        }
    }
}

/// A ring with fewer than four corners would have to lead back.
proof fn lemma_enough_corners(points: Seq<Coord>)
    requires
        points.len() > 0,
        rectilinear(points.push(points[0])),
        alternating(points.push(points[0])),
    ensures
        points.len() >= 4,
{
    let q = points.push(points[0]);
    assert(q[points.len() as int] == points[0]);
    assert(q[0] == points[0]);
    if points.len() == 1 {
        assert(q[0] != q[1]);
    } else if points.len() == 2 {
        assert(q[0] != q[1] && q[1] != q[2]);
    } else if points.len() == 3 {
        assert(q[0] != q[1] && q[1] != q[2] && q[2] != q[3]);
    }
}

proof fn lemma_still_alternating(
    points: Seq<Coord>,
    edge: Edge,
    e: Edge,
    f: Region,
)
    requires
        points.len() > 0,
        rectilinear(points.push(edge.end)),
        alternating(points.push(edge.end)),
        heading(Edge { start: points.last(), end: edge.end, direction: 0 }) == edge.direction,
        directed(edge),
        directed(e),
        borders(edge, f),
        borders(e, f),
        edge.end == e.start,
    ensures
        alternating(
            if e.direction != edge.direction {
                points.push(edge.end).push(e.end)
            } else {
                points.push(e.end)
            },
        ),
{
    let q = points.push(edge.end);
    let n = points.len() as int;
    lemma_no_way_back(edge, e, f);
    assert(q[n - 1] == points.last() && q[n] == edge.end);
    assert(q[n - 1] != q[n]);
    let q2 = if e.direction != edge.direction {
        q.push(e.end)
    } else {
        points.push(e.end)
    };
    assert forall|i: int, j: int, k: int|
        #![trigger q2[i], q2[j], q2[k]]
        0 <= i && j == i + 1 && k == i + 2 && k < q2.len() implies (q2[i].x == q2[j].x) != (q2[j].x
        == q2[k].x) by {
        assert(q2[i] == q[i] && q2[j] == q[j]);
        if k < q.len() {
            assert((q[i].x == q[j].x) != (q[j].x == q[k].x));
        }
    }
}

/// How many more edges start in a point than end there.
pub open spec fn surplus(u: Coord) -> spec_fn(Edge) -> int {
    |e: Edge| ind(e.start == u) - ind(e.end == u)
}

/// Along a chain the surplus is one where it starts and minus one where it ends.
proof fn lemma_chain_surplus(path: Seq<Edge>, u: Coord)
    requires
        path.len() > 0,
        chained(path),
    ensures
        sum(path, surplus(u)) == ind(path[0].start == u) - ind(path.last().end == u),
{
    let phi = |p: Coord| -ind(p == u);
    lemma_telescope(path, phi);
    lemma_sum_same(path, surplus(u), |e: Edge| phi(e.end) - phi(e.start));
}

/// Closed chains start in every point as often as they end there.
proof fn lemma_rings_even(edges: Seq<Edge>, rings: Seq<Seq<Edge>>, u: Coord)
    requires
        forall|k: int| 0 <= k < rings.len() ==> closes(edges, #[trigger] rings[k]),
    ensures
        rings_sum(rings, surplus(u)) == 0,
{
    let g = surplus(u);
    assert forall|k: int| 0 <= k < rings.len() implies sum(#[trigger] rings[k], g) == 0 by {
        assert(closes(edges, rings[k]));
        lemma_chain_surplus(rings[k], u);
    }
    lemma_sum_zero(rings, |r: Seq<Edge>| sum(r, g));
}

/// Takes edges from corner to corner until they come back to the first one's
/// start. The ring itself is returned beside its outline.
fn follow_ring(
    edges: &Vec<Edge>,
    starts: &Vec<Outgoing>,
    visited: &mut Vec<bool>,
    first_index: usize,
    Ghost(rings): Ghost<Seq<Seq<Edge>>>,
) -> (outcome: Result<(LineString, Ghost<Seq<Edge>>), UnionError>)
    requires
        lists(starts@, edges@),
        used_up(edges@, old(visited)@, rings),
        forall|k: int| 0 <= k < rings.len() ==> closes(edges@, #[trigger] rings[k]),
        old(visited)@.len() == edges@.len(),
        forall|i: int| 0 <= i < edges@.len() ==> directed(#[trigger] edges@[i]),
        first_index < edges@.len(),
        !old(visited)@[first_index as int],
        forall|i: int| 0 <= i < first_index ==> #[trigger] old(visited)@[i],
    ensures
        final(visited)@.len() == edges@.len(),
        forall|i: int| 0 <= i < edges@.len() && #[trigger] old(visited)@[i] ==> final(visited)@[i],
        final(visited)@[first_index as int],
        match outcome {
            Ok((line, ring)) => {
                &&& closes(edges@, ring@)
                &&& starts_at(edges@, ring@, first_index as int)
                &&& forall|f: Region|
                    #![trigger swept(edges@, f)]
                    swept(edges@, f) && all_keep_right(rings, f) ==> keeps_right(f, ring@)
                        && bends_round(line.0@, f)
                &&& outlines(line.0@, ring@)
                &&& forall|g: spec_fn(Edge) -> int| #[trigger]
                    pending(edges@, old(visited)@, g) == pending(edges@, final(visited)@, g) + sum(
                        ring@,
                        g,
                    )
                &&& used_up(edges@, final(visited)@, rings.push(ring@))
                &&& forall|f: Region| #[trigger]
                    bounds_region(edges@, f) && in_pieces(rings, f) ==> one_piece(f, ring@)
                &&& walk(
                    edges@,
                    old(visited)@.update(first_index as int, true),
                    seq![edges@[first_index as int]],
                ) == Some((final(visited)@, ring@))
                &&& line.0@ == corners(ring@)
            },
            Err(error) => {
                &&& match walk(
                    edges@,
                    old(visited)@.update(first_index as int, true),
                    seq![edges@[first_index as int]],
                ) {
                    None => error == UnionError::OpenBoundary,
                    Some((_, path)) => error == UnionError::DegenerateRing && corners(path).len()
                        < 4,
                }
                &&& forall|f: Region|
                    #![trigger bounds_region(edges@, f)]
                    bounds_region(edges@, f) ==> exists|u: Coord|
                        pending(edges@, old(visited)@, #[trigger] surplus(u)) != 0
                &&& error == UnionError::OpenBoundary || error == UnionError::DegenerateRing
                &&& error == UnionError::OpenBoundary ==> exists|u: Coord|
                    pending(edges@, old(visited)@, #[trigger] surplus(u)) != 0
                &&& error == UnionError::DegenerateRing ==> has_degenerate(edges@)
            },
        },
{
    let ghost before = visited@;
    let ghost first = first_index as int;
    let mut points: Vec<Coord> = Vec::new();
    points.push(edges[first_index].start);
    let mut edge = edges[first_index];
    let ghost mut path: Seq<Edge> = seq![edge];
    let ghost mut ids: Seq<int> = seq![first];
    proof {
        lemma_follow_first(edges@, first);
        lemma_taking_first(edges@, before, first);
        assert forall|f: Region| #[trigger]
            bounds_region(edges@, f) && in_pieces(rings, f) implies one_piece(f, path) by {
            assert(borders(edges@[first], f));
            assert(straight(edge));
            lemma_edge_cells(edge, f, 0);
            lemma_connected_self(f, right_cell(edge, 0));
        }
        assert(points@ =~= seq![edges@[first].start]);
        assert forall|g: spec_fn(Edge) -> int| #[trigger] pending(edges@, before, g) == pending(
            edges@,
            before.update(first, true),
            g,
        ) + sum(path, g) by {
            lemma_pending_visit(edges@, before, first, g);
            assert(path =~= Seq::<Edge>::empty().push(edge));
            lemma_sum_push(Seq::<Edge>::empty(), edge, g);
        }
        assert(alternating(points@.push(edge.end)));
        assert forall|f: Region|
            #![trigger swept(edges@, f)]
            swept(edges@, f) && all_keep_right(rings, f) implies follows_right(f, path) && bends(
            points@.push(edge.end),
            f,
        ) by {
        }
    }
    visited.set(first_index, true);
    while edge.end != edges[first_index].start
        invariant
            lists(starts@, edges@),
            visited@.len() == edges@.len(),
            before == old(visited)@,
            before.len() == edges@.len(),
            forall|i: int| 0 <= i < edges@.len() ==> directed(#[trigger] edges@[i]),
            first == first_index,
            first_index < edges@.len(),
            forall|i: int| 0 <= i < first ==> #[trigger] before[i],
            forall|i: int| 0 <= i < edges@.len() && #[trigger] before[i] ==> visited@[i],
            visited@[first],
            directed(edge),
            edges@.contains(edge),
            following(edges@, first, path, points@, edge),
            used_up(edges@, before, rings),
            forall|k: int| 0 <= k < rings.len() ==> closes(edges@, #[trigger] rings[k]),
            !before[first],
            forall|f: Region|
                #![trigger swept(edges@, f)]
                swept(edges@, f) && all_keep_right(rings, f) ==> follows_right(f, path) && bends(
                    points@.push(edge.end),
                    f,
                ),
            taking(edges@, before, visited@, ids, path),
            forall|f: Region| #[trigger]
                bounds_region(edges@, f) && in_pieces(rings, f) ==> one_piece(f, path),
            (exists|f: Region| bounds_region(edges@, f)) ==> alternating(points@.push(edge.end)),
            forall|g: spec_fn(Edge) -> int| #[trigger]
                pending(edges@, before, g) == pending(edges@, visited@, g) + sum(path, g),
            points@ == corners(path),
            walk(edges@, before.update(first, true), seq![edges@[first]]) == walk(
                edges@,
                visited@,
                path,
            ),
        decreases pending(edges@, visited@, |e: Edge| 1),
    {
        match next_edge(edges, starts, visited, edge.end, edge.direction) {
            Some(index) => {
                let ghost n = index as int;
                let ghost was = visited@;
                let ghost old_path = path;
                let ghost old_points = points@;
                let ghost e0 = edge;
                let next = edges[index];
                proof {
                    if n < first {
                        assert(before[n]);
                    }
                    assert(goes_on(edges@, visited@, path.last(), n));
                    lemma_walk_on(edges@, visited@, path, n);
                    lemma_corners_push(path, next);
                    lemma_follow_next(edges@, first, path, points@, edge, n);
                    lemma_taking_next(edges@, before, visited@, ids, path, n);
                    assert forall|f: Region| #[trigger]
                        bounds_region(edges@, f) && in_pieces(rings, f) implies one_piece(
                        f,
                        path.push(next),
                    ) by {
                        lemma_same_piece(edges@, f, before, visited@, rings, ids, path, n);
                    }
                    assert forall|f: Region|
                        #![trigger swept(edges@, f)]
                        swept(edges@, f) && all_keep_right(rings, f) implies follows_right(
                        f,
                        path.push(next),
                    ) && bends(
                        if next.direction != edge.direction {
                            points@.push(edge.end).push(next.end)
                        } else {
                            points@.push(next.end)
                        },
                        f,
                    ) by {
                        lemma_right_next(edges@, f, before, visited@, rings, ids, path, n);
                        let q = choose|q: int| 0 <= q < edges@.len() && edges@[q] == edge;
                        assert(borders(edges@[q], f) && borders(edges@[n], f));
                        lemma_bends_on(points@, edge, next, f);
                        lemma_follows_on(f, path, next);
                    }
                    ids = ids.push(n);
                    if exists|f: Region| bounds_region(edges@, f) {
                        let f = choose|f: Region| bounds_region(edges@, f);
                        let q = choose|q: int| 0 <= q < edges@.len() && edges@[q] == edge;
                        assert(borders(edges@[q], f) && borders(edges@[n], f));
                        lemma_still_alternating(points@, edge, next, f);
                    }
                    path = path.push(next);
                    assert forall|g: spec_fn(Edge) -> int| #[trigger]
                        pending(edges@, before, g) == pending(edges@, was.update(n, true), g) + sum(
                            path,
                            g,
                        ) by {
                        lemma_pending_visit(edges@, was, n, g);
                        lemma_sum_push(old_path, next, g);
                        assert(pending(edges@, before, g) == pending(edges@, was, g) + sum(
                            old_path,
                            g,
                        ));
                    }
                    lemma_pending_visit(edges@, was, n, |e: Edge| 1);
                    lemma_pending_count(edges@, was.update(n, true));
                }
                if next.direction != edge.direction {
                    points.push(edge.end);
                }
                visited.set(index, true);
                edge = next;
            },
            None => {
                proof {
                    let u = edge.end;
                    let g = surplus(u);
                    if pending(edges@, before, g) == 0 {
                        lemma_chain_surplus(path, u);
                        assert(pending(edges@, visited@, g) == 1);
                        let k = lemma_pending_positive(edges@, visited@, g);
                        assert(free_at(edges@, visited@, u, k));
                    }
                    assert(pending(edges@, before, surplus(u)) != 0);
                    assert forall|k: int| !#[trigger] goes_on(edges@, visited@, path.last(), k) by {
                        assert(!free_at(edges@, visited@, edge.end, k));
                    }
                }
                return Err(UnionError::OpenBoundary);
            },
        }
    }
    proof {
        assert(edge.end == points@[0]);
        assert(points@.push(edge.end) =~= points@.push(points@[0]));
        lemma_taking_closed(edges@, before, visited@, rings, ids, path);
    }
    proof {
        assert forall|f: spec_fn(Coord, Coord) -> int| additive(f) implies #[trigger] step_sum(
            points@,
            points@.len(),
            f,
        ) == sum(path, |e: Edge| f(e.start, e.end)) by {
            let n = points@.len() as int;
            assert(n % n == 0) by (nonlinear_arith)
                requires
                    n > 0,
            ;
            assert(step_sum(points@, (points@.len() - 1) as nat, f) + f(points@.last(), edge.end)
                == sum(path, |e: Edge| f(e.start, e.end)));
        }
        assert(starts_at(edges@, path, first));
        assert(closes(edges@, path));
        assert(has_corners(points@, path));
    }
    if points.len() < 4 {
        proof {
            if exists|f: Region| bounds_region(edges@, f) {
                lemma_enough_corners(points@);
            }
        }
        return Err(UnionError::DegenerateRing);
    }
    proof {
        assert(starts_at(edges@, path, first));
        assert forall|f: Region|
            #![trigger swept(edges@, f)]
            swept(edges@, f) && all_keep_right(rings, f) implies keeps_right(f, path)
            && bends_round(points@, f) by {
            lemma_right_closed(edges@, f, before, visited@, rings, ids, path, first);
            let n = points@.len() as int;
            let q = points@.push(edge.end);
            assert(q[1] == points@[1]);
            assert(q[n - 1] != q[n]);
            assert(points@[0] != points@[1]) by {
                assert(q[0] != q[1]);
            }
            lemma_corner_closed(f, points@, path[0], edge);
        }
    }
    Ok((LineString(points), Ghost(path)))
}

proof fn lemma_pending_count(edges: Seq<Edge>, visited: Seq<bool>)
    ensures
        pending(edges, visited, |e: Edge| 1) >= 0,
{
    let g = |e: Edge| 1int;
    crate::sums::lemma_sum_nonneg(
        indices(edges.len()),
        |i: int|
            if visited[i] {
                0
            } else {
                g(edges[i])
            },
    );
}

/// Rings that were followed, and what comes of the edges behind them.
spec fn behind(
    rings: Seq<Seq<Coord>>,
    rest: Result<Seq<Seq<Coord>>, UnionError>,
) -> Result<Seq<Seq<Coord>>, UnionError> {
    match rest {
        Ok(more) => Ok(rings + more),
        Err(error) => Err(error),
    }
}

/// One more ring stands behind the others.
proof fn lemma_behind(
    rings: Seq<Seq<Coord>>,
    ring: Seq<Coord>,
    rest: Result<Seq<Seq<Coord>>, UnionError>,
)
    ensures
        behind(rings, behind(seq![ring], rest)) == behind(rings.push(ring), rest),
{
    if let Ok(more) = rest {
        assert(rings + (seq![ring] + more) =~= rings.push(ring) + more);
    }
}

/// Follows the edges into rings, chain by chain, and reports the first chain that
/// makes none. It succeeds on edges that start in every point as often as they end
/// there and of which no chain leads forth and back, and so on every whole boundary.
pub fn trace_contours(edges: &Vec<Edge>) -> (outcome: Result<Vec<LineString>, UnionError>)
    requires
        forall|i: int| 0 <= i < edges@.len() ==> directed(#[trigger] edges@[i]),
    ensures
        match outcome {
            Ok(contours) => are_contours(edges@, contours@) && balanced(edges@),
            Err(UnionError::OpenBoundary) => !balanced(edges@),
            Err(UnionError::DegenerateRing) => has_degenerate(edges@),
            Err(_) => false,
        },
        match outcome {
            Ok(contours) => rings_of(edges@) == Ok::<Seq<Seq<Coord>>, UnionError>(
                rings_view(contours@),
            ),
            Err(error) => rings_of(edges@) == Err::<Seq<Seq<Coord>>, UnionError>(error),
        },
        outcome is Err ==> forall|f: Region| !#[trigger] bounds_region(edges@, f),
{
    let starts = list_starts(edges);
    let count: usize = edges.len();
    let mut visited: Vec<bool> = Vec::new();
    while visited.len() < count
        invariant
            visited@.len() <= count,
            forall|i: int| 0 <= i < visited@.len() ==> !#[trigger] visited@[i],
        decreases count - visited@.len(),
    {
        visited.push(false);
    }
    let mut contours: Vec<LineString> = Vec::new();
    let ghost mut rings: Seq<Seq<Edge>> = Seq::empty();
    let ghost mut firsts: Seq<int> = Seq::empty();
    proof {
        assert forall|g: spec_fn(Edge) -> int| #[trigger] sum(edges@, g) == rings_sum(rings, g)
            + pending(edges@, visited@, g) by {
            lemma_pending_all(edges@, visited@, g);
        }
    }
    proof {
        assert(visited@ =~= Seq::new(edges@.len(), |i: int| false));
        let rest = rings_from(edges@, visited@, 0);
        if let Ok(more) = rest {
            assert(rings_view(contours@) + more =~= more);
        }
        assert(behind(rings_view(contours@), rest) == rest);
    }
    let mut first_index: usize = 0;
    while first_index < count
        invariant
            count == edges@.len(),
            first_index <= count,
            lists(starts@, edges@),
            visited@.len() == edges@.len(),
            forall|i: int| 0 <= i < edges@.len() ==> directed(#[trigger] edges@[i]),
            forall|i: int| 0 <= i < first_index ==> #[trigger] visited@[i],
            rings.len() == contours@.len(),
            used_up(edges@, visited@, rings),
            forall|f: Region| #[trigger] bounds_region(edges@, f) ==> in_pieces(rings, f),
            forall|k: int| 0 <= k < rings.len() ==> closes(edges@, #[trigger] rings[k]),
            forall|k: int|
                0 <= k < rings.len() ==> outlines((#[trigger] contours@[k]).0@, rings[k]),
            firsts.len() == rings.len(),
            forall|k: int|
                0 <= k < rings.len() ==> starts_at(edges@, #[trigger] rings[k], firsts[k]),
            forall|k: int| 0 <= k < firsts.len() ==> #[trigger] firsts[k] < first_index,
            forall|k: int, l: int|
                #![trigger firsts[k], firsts[l]]
                0 <= k < l < firsts.len() ==> firsts[k] < firsts[l],
            forall|f: Region| #[trigger] swept(edges@, f) ==> all_keep_right(rings, f),
            forall|f: Region, k: int|
                #![trigger swept(edges@, f), contours@[k]]
                swept(edges@, f) && 0 <= k < contours@.len() ==> bends_round(contours@[k].0@, f),
            forall|g: spec_fn(Edge) -> int| #[trigger]
                sum(edges@, g) == rings_sum(rings, g) + pending(edges@, visited@, g),
            rings_of(edges@) == behind(
                rings_view(contours@),
                rings_from(edges@, visited@, first_index as int),
            ),
        decreases count - first_index,
    {
        if !visited[first_index] {
            let ghost before = visited@;
            match follow_ring(edges, &starts, &mut visited, first_index, Ghost(rings)) {
                Ok((line, followed)) => {
                    proof {
                        let ring = followed@;
                        assert forall|i: int| 0 <= i < first_index implies #[trigger] visited@[i] by {
                            assert(before[i]);
                        }
                        let old_rings = rings;
                        rings = rings.push(ring);
                        firsts = firsts.push(first_index as int);
                        assert forall|f: Region| #[trigger] swept(edges@, f) implies all_keep_right(
                            rings,
                            f,
                        ) by {
                            assert(all_keep_right(old_rings, f));
                            assert forall|k: int| 0 <= k < rings.len() implies keeps_right(
                                f,
                                #[trigger] rings[k],
                            ) by {
                                if k < old_rings.len() {
                                    assert(rings[k] == old_rings[k]);
                                }
                            }
                        }
                        assert forall|f: Region| #[trigger] bounds_region(edges@, f) implies in_pieces(
                            rings,
                            f,
                        ) by {
                            assert(in_pieces(old_rings, f));
                            assert(one_piece(f, ring));
                            assert forall|k: int| 0 <= k < rings.len() implies one_piece(
                                f,
                                #[trigger] rings[k],
                            ) by {
                                if k < old_rings.len() {
                                    assert(rings[k] == old_rings[k]);
                                }
                            }
                        }
                        assert forall|g: spec_fn(Edge) -> int| #[trigger] sum(edges@, g)
                            == rings_sum(rings, g) + pending(edges@, visited@, g) by {
                            assert(sum(edges@, g) == rings_sum(old_rings, g) + pending(
                                edges@,
                                before,
                                g,
                            ));
                            lemma_sum_push(old_rings, ring, |r: Seq<Edge>| sum(r, g));
                        }
                        let rest = rings_from(edges@, visited@, first_index + 1);
                        assert(rings_from(edges@, before, first_index as int) == behind(
                            seq![line.0@],
                            rest,
                        ));
                        lemma_behind(rings_view(contours@), line.0@, rest);
                        assert(rings_view(contours@.push(line)) =~= rings_view(contours@).push(line.0@));
                    }
                    contours.push(line);
                },
                Err(error) => {
                    proof {
                        assert forall|u: Coord| sum(edges@, #[trigger] surplus(u)) == pending(
                            edges@,
                            before,
                            surplus(u),
                        ) by {
                            lemma_rings_even(edges@, rings, u);
                        }
                        assert forall|f: Region| !#[trigger] bounds_region(edges@, f) by {
                            if bounds_region(edges@, f) {
                                let u = choose|u: Coord|
                                    pending(edges@, before, #[trigger] surplus(u)) != 0;
                                lemma_balanced(edges@, f, u);
                                assert(sum(edges@, surplus(u)) == 0);
                            }
                        }
                    }
                    return Err(error);
                },
            }
        }
        first_index = first_index + 1;
    }
    proof {
        assert forall|g: spec_fn(Edge) -> int| #[trigger] sum(edges@, g) == rings_sum(rings, g) by {
            lemma_pending_none(edges@, visited@, g);
        }
        assert forall|k: int, l: int|
            #![trigger rings[k], rings[l]]
            0 <= k < l < rings.len() implies in_turn(edges@, rings[k], rings[l]) by {
            assert(starts_at(edges@, rings[k], firsts[k]));
            assert(starts_at(edges@, rings[l], firsts[l]));
            assert(firsts[k] < firsts[l]);
        }
        assert(traced(edges@, rings, contours@));
        assert forall|u: Coord| sum(edges@, #[trigger] surplus(u)) == 0 by {
            lemma_rings_even(edges@, rings, u);
        }
        assert(are_contours(edges@, contours@));
        assert(rings_view(contours@) + Seq::<Seq<Coord>>::empty() =~= rings_view(contours@));
    }
    Ok(contours)
}

/// Behind an edge of any direction a right turn comes before the way straight on, that
/// before a left turn, and the way back comes last. Directions are counted by quarters,
/// clockwise.
pub proof fn lemma_turns(direction: int)
    requires
        0 <= direction < 4,
    ensures
        turn_rank(direction, (direction + 1) % 4) < turn_rank(direction, direction),
        turn_rank(direction, direction) < turn_rank(direction, (direction + 3) % 4),
        turn_rank(direction, (direction + 3) % 4) < turn_rank(direction, (direction + 2) % 4),
        0 <= turn_rank(direction, (direction + 1) % 4),
        turn_rank(direction, (direction + 2) % 4) <= 3,
{
}

} // verus!
