//! Closed rings of axis-parallel edges that together bound a region of cells.
//!
//! A region is a predicate on cells. Its boundary is a family of directed
//! rings, each edge of which keeps the region on its right hand. What is proved
//! here of such a family is what makes polygons out of it: every ring winds
//! around each cell either never or once, rings do not cross, and the windings
//! of all rings around a cell add up to one inside the region and to zero
//! outside.

use vstd::prelude::*;

use crate::geometry::crossing;
use crate::geometry::Coord;
use crate::sums::{ind, sum};
use crate::sums::{
    lemma_sum_bounds_term, lemma_sum_bounds_two, lemma_sum_nonneg, lemma_sum_same, lemma_sum_scale,
    lemma_sum_positive, lemma_sum_split, lemma_sum_zero,
};

verus! {

/// A directed side of the boundary. The direction counts quarter turns
/// clockwise from the positive X axis.
#[derive(Clone, Copy, Debug, PartialEq, Eq, Structural)]
pub struct Edge {
    pub start: Coord,
    pub end: Coord,
    pub direction: u8,
}

/// A set of cells.
pub type Region = spec_fn(int, int) -> bool;

/// The edge leads from one point to another along an axis.
pub open spec fn straight(e: Edge) -> bool {
    &&& e.start.x == e.end.x || e.start.y == e.end.y
    &&& e.start != e.end
}

/// The direction in which an edge leads.
pub open spec fn heading(e: Edge) -> u8 {
    if e.start.y == e.end.y {
        if e.start.x < e.end.x {
            0
        } else {
            2
        }
    } else if e.start.y < e.end.y {
        1
    } else {
        3
    }
}

/// How the edge passes between cells `(x - 1, y)` and `(x, y)`: one downwards,
/// minus one upwards, zero when it does not.
pub open spec fn vseg(e: Edge, x: int, y: int) -> int {
    if e.start.x == e.end.x && e.start.x == x {
        ind(e.end.y > y) - ind(e.start.y > y)
    } else {
        0
    }
}

/// How the edge passes between cells `(x, y - 1)` and `(x, y)`: one to the
/// right, minus one to the left, zero when it does not.
pub open spec fn hseg(e: Edge, x: int, y: int) -> int {
    if e.start.y == e.end.y && e.start.y == y {
        ind(e.end.x > x) - ind(e.start.x > x)
    } else {
        0
    }
}

pub open spec fn edge_crossing(e: Edge, x: int, y: int) -> int {
    crossing(e.start, e.end, x, y)
}

pub open spec fn ring_v(r: Seq<Edge>, x: int, y: int) -> int {
    sum(r, |e: Edge| vseg(e, x, y))
}

pub open spec fn ring_h(r: Seq<Edge>, x: int, y: int) -> int {
    sum(r, |e: Edge| hseg(e, x, y))
}

/// How many times a ring of edges winds around a cell.
pub open spec fn ring_w(r: Seq<Edge>, x: int, y: int) -> int {
    sum(r, |e: Edge| edge_crossing(e, x, y))
}

pub open spec fn total_v(rings: Seq<Seq<Edge>>, x: int, y: int) -> int {
    sum(rings, |r: Seq<Edge>| ring_v(r, x, y))
}

pub open spec fn total_h(rings: Seq<Seq<Edge>>, x: int, y: int) -> int {
    sum(rings, |r: Seq<Edge>| ring_h(r, x, y))
}

pub open spec fn total_w(rings: Seq<Seq<Edge>>, x: int, y: int) -> int {
    sum(rings, |r: Seq<Edge>| ring_w(r, x, y))
}

/// Each edge starts where the one before it ends.
pub open spec fn chained(r: Seq<Edge>) -> bool {
    forall|i: int, j: int| #![trigger r[i], r[j]] 0 <= i && j == i + 1 && j < r.len() ==> r[i].end == r[j].start
}

/// A chain of straight edges that comes back to where it starts.
pub open spec fn ring_ok(r: Seq<Edge>) -> bool {
    &&& r.len() > 0
    &&& chained(r)
    &&& r.last().end == r[0].start
    &&& forall|i: int| 0 <= i < r.len() ==> straight(#[trigger] r[i])
}

/// What the side between cells `(x - 1, y)` and `(x, y)` is to a region.
pub open spec fn step_v(f: Region, x: int, y: int) -> int {
    ind(f(x - 1, y)) - ind(f(x, y))
}

pub open spec fn step_h(f: Region, x: int, y: int) -> int {
    ind(f(x, y)) - ind(f(x, y - 1))
}

/// Wherever the edge runs, the region lies on its right and not on its left.
pub open spec fn borders(e: Edge, f: Region) -> bool {
    &&& straight(e)
    &&& forall|x: int, y: int| #[trigger] vseg(e, x, y) != 0 ==> vseg(e, x, y) == step_v(f, x, y)
    &&& forall|x: int, y: int| #[trigger] hseg(e, x, y) != 0 ==> hseg(e, x, y) == step_h(f, x, y)
}

/// The rings are the whole boundary of the region.
pub open spec fn boundary(rings: Seq<Seq<Edge>>, f: Region) -> bool {
    &&& forall|k: int| 0 <= k < rings.len() ==> ring_ok(#[trigger] rings[k])
    &&& forall|k: int, i: int|
        0 <= k < rings.len() && 0 <= i < rings[k].len() ==> borders(#[trigger] rings[k][i], f)
    &&& forall|x: int, y: int| #[trigger] total_v(rings, x, y) == step_v(f, x, y)
    &&& forall|x: int, y: int| #[trigger] total_h(rings, x, y) == step_h(f, x, y)
    &&& forall|x: int, y: int| x >= i32::MAX ==> !#[trigger] f(x, y)
}

/// A difference along the edges of a chain telescopes.
pub proof fn lemma_telescope(r: Seq<Edge>, phi: spec_fn(Coord) -> int)
    requires
        chained(r),
        r.len() > 0,
    ensures
        sum(r, |e: Edge| phi(e.end) - phi(e.start)) == phi(r.last().end) - phi(r[0].start),
    decreases r.len(),
{
    let g = |e: Edge| phi(e.end) - phi(e.start);
    let s = r.drop_last();
    if s.len() > 0 {
        assert forall|i: int, j: int| #![trigger s[i], s[j]] 0 <= i && j == i + 1 && j < s.len() implies s[i].end
            == s[j].start by {
            assert(s[i] == r[i] && s[j] == r[j]);
        }
        lemma_telescope(s, phi);
        assert(s.last() == r[r.len() - 2]);
        assert(r.last() == r[r.len() - 1]);
        assert(s[0] == r[0]);
    } else {
        assert(sum(s, g) == 0);
    }
}

pub proof fn lemma_step_left(r: Seq<Edge>, x: int, y: int)
    ensures
        ring_w(r, x - 1, y) - ring_w(r, x, y) == ring_v(r, x, y),
{
    lemma_sum_split(
        r,
        |e: Edge| edge_crossing(e, x - 1, y),
        |e: Edge| edge_crossing(e, x, y),
        |e: Edge| vseg(e, x, y),
    );
}

pub proof fn lemma_step_up(r: Seq<Edge>, x: int, y: int)
    requires
        ring_ok(r),
    ensures
        ring_w(r, x, y) - ring_w(r, x, y - 1) == ring_h(r, x, y),
{
    let phi = |p: Coord| ind(p.x > x && p.y == y);
    let d = |e: Edge| phi(e.end) - phi(e.start);
    let a = |e: Edge| edge_crossing(e, x, y);
    let b = |e: Edge| edge_crossing(e, x, y - 1);
    let h = |e: Edge| hseg(e, x, y);
    let bh = |e: Edge| edge_crossing(e, x, y - 1) + hseg(e, x, y);
    assert forall|i: int| 0 <= i < r.len() implies bh(#[trigger] r[i]) == a(r[i]) + d(r[i]) by {
        assert(straight(r[i]));
    }
    lemma_sum_split(r, bh, a, d);
    lemma_sum_split(r, bh, b, h);
    lemma_telescope(r, phi);
}

/// All corners of the chain lie in a box.
pub open spec fn within(r: Seq<Edge>, x1: int, y1: int, x2: int, y2: int) -> bool {
    forall|i: int|
        0 <= i < r.len() ==> {
            &&& x1 <= (#[trigger] r[i]).start.x <= x2
            &&& x1 <= r[i].end.x <= x2
            &&& y1 <= r[i].start.y <= y2
            &&& y1 <= r[i].end.y <= y2
        }
}

/// A ring winds around no cell outside a box that holds it.
pub proof fn lemma_outside_box(
    r: Seq<Edge>,
    x1: int,
    y1: int,
    x2: int,
    y2: int,
    x: int,
    y: int,
)
    requires
        ring_ok(r),
        within(r, x1, y1, x2, y2),
        x < x1 || x >= x2 || y < y1 || y >= y2,
    ensures
        ring_w(r, x, y) == 0,
{
    let w = |e: Edge| edge_crossing(e, x, y);
    if x < x1 {
        let phi = |p: Coord| ind(p.y > y);
        let d = |e: Edge| phi(e.end) - phi(e.start);
        assert forall|i: int| 0 <= i < r.len() implies w(#[trigger] r[i]) == d(r[i]) by {
            assert(straight(r[i]));
        }
        lemma_sum_same(r, w, d);
        lemma_telescope(r, phi);
    } else {
        lemma_sum_zero(r, w);
    }
}

/// A ring winds around no cell out of the range of coordinates.
pub proof fn lemma_far(r: Seq<Edge>, x: int, y: int)
    requires
        ring_ok(r),
        x < i32::MIN || x >= i32::MAX || y < i32::MIN || y >= i32::MAX,
    ensures
        ring_w(r, x, y) == 0,
{
    lemma_outside_box(
        r,
        i32::MIN as int,
        i32::MIN as int,
        i32::MAX as int,
        i32::MAX as int,
        x,
        y,
    );
}

/// If ring `k` runs along a vertical side, it does so alone and once.
pub proof fn lemma_alone_v(
    rings: Seq<Seq<Edge>>,
    f: Region,
    k: int,
    i: int,
    j: int,
    x: int,
    y: int,
)
    requires
        boundary(rings, f),
        0 <= k < rings.len(),
        0 <= i < rings[k].len(),
        0 <= j < rings.len(),
        vseg(rings[k][i], x, y) != 0,
    ensures
        ring_v(rings[j], x, y) == if j == k {
            step_v(f, x, y)
        } else {
            0
        },
        step_v(f, x, y) == vseg(rings[k][i], x, y),
{
    let d = step_v(f, x, y);
    assert(borders(rings[k][i], f));
    let g = |e: Edge| d * vseg(e, x, y);
    let gr = |r: Seq<Edge>| d * ring_v(r, x, y);
    assert forall|m: int| 0 <= m < rings.len() implies gr(#[trigger] rings[m]) >= 0 && gr(rings[m])
        == sum(rings[m], g) by {
        let r = rings[m];
        assert forall|q: int| 0 <= q < r.len() implies g(#[trigger] r[q]) >= 0 by {
            assert(borders(rings[m][q], f));
            let t = vseg(r[q], x, y);
            assert(t == 0 || t == d);
            assert(d * t >= 0) by (nonlinear_arith)
                requires
                    t == 0 || t == d,
            ;
        }
        lemma_sum_nonneg(r, g);
        lemma_sum_scale(r, g, |e: Edge| vseg(e, x, y), d);
    }
    lemma_sum_scale(rings, gr, |r: Seq<Edge>| ring_v(r, x, y), d);
    assert(sum(rings, gr) == d * total_v(rings, x, y));
    assert(total_v(rings, x, y) == d);
    assert(d == 1 || d == -1);
    assert(d * d == 1) by (nonlinear_arith)
        requires
            d == 1 || d == -1,
    ;
    let r = rings[k];
    assert forall|q: int| 0 <= q < r.len() implies g(#[trigger] r[q]) >= 0 by {
        assert(borders(rings[k][q], f));
        let t = vseg(r[q], x, y);
        assert(d * t >= 0) by (nonlinear_arith)
            requires
                t == 0 || t == d,
        ;
    }
    lemma_sum_bounds_term(r, g, i);
    assert(g(r[i]) == d * vseg(r[i], x, y));
    assert(gr(rings[k]) >= 1);
    lemma_sum_bounds_term(rings, gr, k);
    assert(gr(rings[k]) == 1);
    let vk = ring_v(rings[k], x, y);
    assert(vk == d) by (nonlinear_arith)
        requires
            d * vk == 1,
            d == 1 || d == -1,
    ;
    if j != k {
        lemma_sum_bounds_two(rings, gr, j, k);
        assert(gr(rings[j]) == 0);
        let vj = ring_v(rings[j], x, y);
        assert(vj == 0) by (nonlinear_arith)
            requires
                d * vj == 0,
                d == 1 || d == -1,
        ;
    }
}

/// If ring `k` runs along a horizontal side, it does so alone and once.
pub proof fn lemma_alone_h(
    rings: Seq<Seq<Edge>>,
    f: Region,
    k: int,
    i: int,
    j: int,
    x: int,
    y: int,
)
    requires
        boundary(rings, f),
        0 <= k < rings.len(),
        0 <= i < rings[k].len(),
        0 <= j < rings.len(),
        hseg(rings[k][i], x, y) != 0,
    ensures
        ring_h(rings[j], x, y) == if j == k {
            step_h(f, x, y)
        } else {
            0
        },
        step_h(f, x, y) == hseg(rings[k][i], x, y),
{
    let d = step_h(f, x, y);
    assert(borders(rings[k][i], f));
    let g = |e: Edge| d * hseg(e, x, y);
    let gr = |r: Seq<Edge>| d * ring_h(r, x, y);
    assert forall|m: int| 0 <= m < rings.len() implies gr(#[trigger] rings[m]) >= 0 && gr(rings[m])
        == sum(rings[m], g) by {
        let r = rings[m];
        assert forall|q: int| 0 <= q < r.len() implies g(#[trigger] r[q]) >= 0 by {
            assert(borders(rings[m][q], f));
            let t = hseg(r[q], x, y);
            assert(t == 0 || t == d);
            assert(d * t >= 0) by (nonlinear_arith)
                requires
                    t == 0 || t == d,
            ;
        }
        lemma_sum_nonneg(r, g);
        lemma_sum_scale(r, g, |e: Edge| hseg(e, x, y), d);
    }
    lemma_sum_scale(rings, gr, |r: Seq<Edge>| ring_h(r, x, y), d);
    assert(sum(rings, gr) == d * total_h(rings, x, y));
    assert(total_h(rings, x, y) == d);
    assert(d == 1 || d == -1);
    assert(d * d == 1) by (nonlinear_arith)
        requires
            d == 1 || d == -1,
    ;
    let r = rings[k];
    assert forall|q: int| 0 <= q < r.len() implies g(#[trigger] r[q]) >= 0 by {
        assert(borders(rings[k][q], f));
        let t = hseg(r[q], x, y);
        assert(d * t >= 0) by (nonlinear_arith)
            requires
                t == 0 || t == d,
        ;
    }
    lemma_sum_bounds_term(r, g, i);
    assert(g(r[i]) == d * hseg(r[i], x, y));
    assert(gr(rings[k]) >= 1);
    lemma_sum_bounds_term(rings, gr, k);
    assert(gr(rings[k]) == 1);
    let vk = ring_h(rings[k], x, y);
    assert(vk == d) by (nonlinear_arith)
        requires
            d * vk == 1,
            d == 1 || d == -1,
    ;
    if j != k {
        lemma_sum_bounds_two(rings, gr, j, k);
        assert(gr(rings[j]) == 0);
        let vj = ring_h(rings[j], x, y);
        assert(vj == 0) by (nonlinear_arith)
            requires
                d * vj == 0,
                d == 1 || d == -1,
        ;
    }
}

/// How many unit sides the edge is made of.
pub open spec fn length(e: Edge) -> int {
    match heading(e) {
        0 => e.end.x - e.start.x,
        1 => e.end.y - e.start.y,
        2 => e.start.x - e.end.x,
        _ => e.start.y - e.end.y,
    }
}

/// The cell on the right of the edge's unit side number `t`.
pub open spec fn right_cell(e: Edge, t: int) -> (int, int) {
    match heading(e) {
        0 => (e.start.x + t, e.start.y as int),
        1 => (e.start.x - 1, e.start.y + t),
        2 => (e.start.x - 1 - t, e.start.y - 1),
        _ => (e.start.x as int, e.start.y - 1 - t),
    }
}

/// The cell on the left of the edge's unit side number `t`.
pub open spec fn left_cell(e: Edge, t: int) -> (int, int) {
    match heading(e) {
        0 => (e.start.x + t, e.start.y - 1),
        1 => (e.start.x as int, e.start.y + t),
        2 => (e.start.x - 1 - t, e.start.y as int),
        _ => (e.start.x - 1, e.start.y - 1 - t),
    }
}

pub open spec fn wind_at(r: Seq<Edge>, c: (int, int)) -> int {
    ring_w(r, c.0, c.1)
}

/// How often ring `j` winds around the cells right beside ring `k`, on the side
/// of the region.
pub open spec fn near(rings: Seq<Seq<Edge>>, j: int, k: int) -> int {
    wind_at(rings[j], right_cell(rings[k][0], 0))
}

/// No ring passes between two cells that are alike.
pub proof fn lemma_quiet_v(rings: Seq<Seq<Edge>>, f: Region, j: int, x: int, y: int)
    requires
        boundary(rings, f),
        0 <= j < rings.len(),
        step_v(f, x, y) == 0,
    ensures
        ring_v(rings[j], x, y) == 0,
{
    let r = rings[j];
    let v = |e: Edge| vseg(e, x, y);
    assert forall|i: int| 0 <= i < r.len() implies v(#[trigger] r[i]) == 0 by {
        assert(borders(rings[j][i], f));
    }
    lemma_sum_zero(r, v);
}

pub proof fn lemma_quiet_h(rings: Seq<Seq<Edge>>, f: Region, j: int, x: int, y: int)
    requires
        boundary(rings, f),
        0 <= j < rings.len(),
        step_h(f, x, y) == 0,
    ensures
        ring_h(rings[j], x, y) == 0,
{
    let r = rings[j];
    let v = |e: Edge| hseg(e, x, y);
    assert forall|i: int| 0 <= i < r.len() implies v(#[trigger] r[i]) == 0 by {
        assert(borders(rings[j][i], f));
    }
    lemma_sum_zero(r, v);
}

/// What lies on the two hands of a unit side.
pub proof fn lemma_side(
    rings: Seq<Seq<Edge>>,
    f: Region,
    k: int,
    i: int,
    j: int,
    t: int,
)
    requires
        boundary(rings, f),
        0 <= k < rings.len(),
        0 <= i < rings[k].len(),
        0 <= j < rings.len(),
        0 <= t < length(rings[k][i]),
    ensures
        wind_at(rings[j], right_cell(rings[k][i], t)) - wind_at(
            rings[j],
            left_cell(rings[k][i], t),
        ) == ind(j == k),
        ({
            let c = right_cell(rings[k][i], t);
            f(c.0, c.1)
        }),
        ({
            let c = left_cell(rings[k][i], t);
            !f(c.0, c.1)
        }),
{
    let e = rings[k][i];
    let r = rings[j];
    assert(borders(rings[k][i], f));
    assert(ring_ok(rings[j]));
    match heading(e) {
        0 => {
            let x = e.start.x + t;
            let y = e.start.y as int;
            assert(hseg(e, x, y) == 1);
            lemma_alone_h(rings, f, k, i, j, x, y);
            lemma_step_up(r, x, y);
        },
        1 => {
            let x = e.start.x as int;
            let y = e.start.y + t;
            assert(vseg(e, x, y) == 1);
            lemma_alone_v(rings, f, k, i, j, x, y);
            lemma_step_left(r, x, y);
        },
        2 => {
            let x = e.start.x - 1 - t;
            let y = e.start.y as int;
            assert(hseg(e, x, y) == -1);
            lemma_alone_h(rings, f, k, i, j, x, y);
            lemma_step_up(r, x, y);
        },
        _ => {
            let x = e.start.x as int;
            let y = e.start.y - 1 - t;
            assert(vseg(e, x, y) == -1);
            lemma_alone_v(rings, f, k, i, j, x, y);
            lemma_step_left(r, x, y);
        },
    }
}

/// Two cells of the region that share a vertical side have the same windings.
pub proof fn lemma_beside(rings: Seq<Seq<Edge>>, f: Region, j: int, x: int, y: int)
    requires
        boundary(rings, f),
        0 <= j < rings.len(),
        f(x - 1, y) == f(x, y),
    ensures
        ring_w(rings[j], x - 1, y) == ring_w(rings[j], x, y),
{
    lemma_quiet_v(rings, f, j, x, y);
    lemma_step_left(rings[j], x, y);
}

pub proof fn lemma_above(rings: Seq<Seq<Edge>>, f: Region, j: int, x: int, y: int)
    requires
        boundary(rings, f),
        0 <= j < rings.len(),
        f(x, y - 1) == f(x, y),
    ensures
        ring_w(rings[j], x, y - 1) == ring_w(rings[j], x, y),
{
    lemma_quiet_h(rings, f, j, x, y);
    assert(ring_ok(rings[j]));
    lemma_step_up(rings[j], x, y);
}

/// Along one edge the windings do not change.
pub proof fn lemma_along(
    rings: Seq<Seq<Edge>>,
    f: Region,
    k: int,
    i: int,
    j: int,
    t: int,
)
    requires
        boundary(rings, f),
        0 <= k < rings.len(),
        0 <= i < rings[k].len(),
        0 <= j < rings.len(),
        0 <= t < length(rings[k][i]),
    ensures
        wind_at(rings[j], right_cell(rings[k][i], t)) == wind_at(
            rings[j],
            right_cell(rings[k][i], 0),
        ),
    decreases t,
{
    if t > 0 {
        let e = rings[k][i];
        lemma_along(rings, f, k, i, j, t - 1);
        lemma_side(rings, f, k, i, j, t);
        lemma_side(rings, f, k, i, j, t - 1);
        match heading(e) {
            0 => lemma_beside(rings, f, j, e.start.x + t, e.start.y as int),
            1 => lemma_above(rings, f, j, e.start.x - 1, e.start.y + t),
            2 => lemma_beside(rings, f, j, e.start.x - t, e.start.y - 1),
            _ => lemma_above(rings, f, j, e.start.x as int, e.start.y - t),
        }
    }
}

/// Nor do they change from one edge of a ring to the next.
pub proof fn lemma_joint(
    rings: Seq<Seq<Edge>>,
    f: Region,
    k: int,
    i: int,
    n: int,
    j: int,
)
    requires
        boundary(rings, f),
        0 <= k < rings.len(),
        0 <= i < rings[k].len(),
        0 <= n < rings[k].len(),
        0 <= j < rings.len(),
        rings[k][i].end == rings[k][n].start,
    ensures
        wind_at(rings[j], right_cell(rings[k][i], 0)) == wind_at(
            rings[j],
            right_cell(rings[k][n], 0),
        ),
        (heading(rings[k][n]) + 4 - heading(rings[k][i])) % 4 != 2,
{
    let a = rings[k][i];
    let b = rings[k][n];
    assert(borders(rings[k][i], f) && borders(rings[k][n], f));
    let t = length(a) - 1;
    lemma_along(rings, f, k, i, j, t);
    lemma_side(rings, f, k, i, j, t);
    lemma_side(rings, f, k, n, j, 0);
    let x = b.start.x as int;
    let y = b.start.y as int;
    if heading(a) == heading(b) {
        match heading(a) {
            0 => lemma_beside(rings, f, j, x, y),
            1 => lemma_above(rings, f, j, x - 1, y),
            2 => lemma_beside(rings, f, j, x, y - 1),
            _ => lemma_above(rings, f, j, x, y),
        }
    }
}

pub proof fn lemma_around(rings: Seq<Seq<Edge>>, f: Region, k: int, i: int, j: int)
    requires
        boundary(rings, f),
        0 <= k < rings.len(),
        0 <= i < rings[k].len(),
        0 <= j < rings.len(),
    ensures
        wind_at(rings[j], right_cell(rings[k][i], 0)) == near(rings, j, k),
    decreases i,
{
    if i > 0 {
        lemma_around(rings, f, k, i - 1, j);
        assert(ring_ok(rings[k]));
        assert(rings[k][i - 1].end == rings[k][i].start);
        lemma_joint(rings, f, k, i - 1, i, j);
    }
}

/// Everywhere beside ring `k`, ring `j` winds as it does at the ring's start.
pub proof fn lemma_near(
    rings: Seq<Seq<Edge>>,
    f: Region,
    k: int,
    i: int,
    j: int,
    t: int,
)
    requires
        boundary(rings, f),
        0 <= k < rings.len(),
        0 <= i < rings[k].len(),
        0 <= j < rings.len(),
        0 <= t < length(rings[k][i]),
    ensures
        wind_at(rings[j], right_cell(rings[k][i], t)) == near(rings, j, k),
        wind_at(rings[j], left_cell(rings[k][i], t)) == near(rings, j, k) - ind(j == k),
{
    lemma_around(rings, f, k, i, j);
    lemma_along(rings, f, k, i, j, t);
    lemma_side(rings, f, k, i, j, t);
}

/// A sum that is not zero has a term that is not.
pub proof fn lemma_some_edge(r: Seq<Edge>, g: spec_fn(Edge) -> int) -> (i: int)
    requires
        sum(r, g) != 0,
    ensures
        0 <= i < r.len(),
        g(r[i]) != 0,
    decreases r.len(),
{
    let s = r.drop_last();
    if g(r.last()) != 0 {
        r.len() - 1
    } else {
        let i = lemma_some_edge(s, g);
        assert(s[i] == r[i]);
        i
    }
}

/// Where ring `k` passes between two cells, ring `j` winds around both as it
/// does everywhere beside ring `k`.
pub proof fn lemma_hit(rings: Seq<Seq<Edge>>, f: Region, j: int, k: int, x: int, y: int)
    requires
        boundary(rings, f),
        0 <= j < rings.len(),
        0 <= k < rings.len(),
        ring_v(rings[k], x, y) != 0,
    ensures
        j != k ==> ring_w(rings[j], x - 1, y) == near(rings, j, k) && ring_w(rings[j], x, y)
            == near(rings, j, k),
        j == k ==> {
            ||| ring_w(rings[k], x - 1, y) == near(rings, k, k) && ring_w(rings[k], x, y) == near(
                rings,
                k,
                k,
            ) - 1
            ||| ring_w(rings[k], x - 1, y) == near(rings, k, k) - 1 && ring_w(rings[k], x, y)
                == near(rings, k, k)
        },
{
    let i = lemma_some_edge(rings[k], |e: Edge| vseg(e, x, y));
    let e = rings[k][i];
    assert(vseg(e, x, y) != 0);
    assert(borders(rings[k][i], f));
    let t = if heading(e) == 1 {
        y - e.start.y
    } else {
        e.start.y - 1 - y
    };
    lemma_near(rings, f, k, i, j, t);
}

proof fn lemma_values_by_row(rings: Seq<Seq<Edge>>, f: Region, k: int, x: int, y: int)
    requires
        boundary(rings, f),
        0 <= k < rings.len(),
    ensures
        ring_w(rings[k], x, y) != 0 ==> {
            let c = near(rings, k, k);
            &&& c == 0 || c == 1
            &&& ring_w(rings[k], x, y) == c || ring_w(rings[k], x, y) == c - 1
        },
    decreases i32::MAX - x,
{
    if x >= i32::MAX {
        assert(ring_ok(rings[k]));
        lemma_far(rings[k], x, y);
    } else {
        lemma_values_by_row(rings, f, k, x + 1, y);
        if ring_v(rings[k], x + 1, y) == 0 {
            lemma_step_left(rings[k], x + 1, y);
        } else {
            lemma_hit(rings, f, k, k, x + 1, y);
        }
    }
}

/// A ring is either an outer one, with windings zero and one, or an inner one,
/// with windings zero and minus one.
pub proof fn lemma_values(rings: Seq<Seq<Edge>>, f: Region, k: int, x: int, y: int)
    requires
        boundary(rings, f),
        0 <= k < rings.len(),
    ensures
        near(rings, k, k) == 0 || near(rings, k, k) == 1,
        near(rings, k, k) == 1 ==> 0 <= ring_w(rings[k], x, y) <= 1,
        near(rings, k, k) == 0 ==> -1 <= ring_w(rings[k], x, y) <= 0,
{
    let c = right_cell(rings[k][0], 0);
    lemma_values_by_row(rings, f, k, c.0, c.1);
    lemma_values_by_row(rings, f, k, x, y);
}

/// Ring `k` lies inside ring `j`.
pub open spec fn inside(rings: Seq<Seq<Edge>>, k: int, j: int) -> bool {
    near(rings, j, k) != 0
}

proof fn lemma_not_mutual_by_row(
    rings: Seq<Seq<Edge>>,
    f: Region,
    j: int,
    k: int,
    x: int,
    y: int,
)
    requires
        boundary(rings, f),
        0 <= j < rings.len(),
        0 <= k < rings.len(),
        j != k,
        inside(rings, k, j),
        inside(rings, j, k),
    ensures
        ring_w(rings[j], x, y) == 0,
        ring_w(rings[k], x, y) == 0,
    decreases i32::MAX - x,
{
    assert(ring_ok(rings[j]) && ring_ok(rings[k]));
    if x >= i32::MAX {
        lemma_far(rings[j], x, y);
        lemma_far(rings[k], x, y);
    } else {
        lemma_not_mutual_by_row(rings, f, j, k, x + 1, y);
        if ring_v(rings[k], x + 1, y) != 0 {
            lemma_hit(rings, f, j, k, x + 1, y);
        }
        if ring_v(rings[j], x + 1, y) != 0 {
            lemma_hit(rings, f, k, j, x + 1, y);
        }
        lemma_step_left(rings[k], x + 1, y);
        lemma_step_left(rings[j], x + 1, y);
    }
}

/// Of two rings, at most one lies inside the other.
pub proof fn lemma_not_mutual(rings: Seq<Seq<Edge>>, f: Region, j: int, k: int)
    requires
        boundary(rings, f),
        0 <= j < rings.len(),
        0 <= k < rings.len(),
        j != k,
    ensures
        !(inside(rings, k, j) && inside(rings, j, k)),
{
    if inside(rings, k, j) && inside(rings, j, k) {
        let c = right_cell(rings[k][0], 0);
        lemma_not_mutual_by_row(rings, f, j, k, c.0, c.1);
    }
}

/// What a ring encloses, every ring around it encloses too.
pub proof fn lemma_nested(rings: Seq<Seq<Edge>>, f: Region, j: int, k: int, x: int, y: int)
    requires
        boundary(rings, f),
        0 <= j < rings.len(),
        0 <= k < rings.len(),
        j != k,
        inside(rings, k, j),
        ring_w(rings[k], x, y) != 0,
    ensures
        ring_w(rings[j], x, y) != 0,
    decreases i32::MAX - x,
{
    assert(ring_ok(rings[k]));
    if x >= i32::MAX {
        lemma_far(rings[k], x, y);
    } else if ring_v(rings[k], x + 1, y) != 0 {
        lemma_hit(rings, f, j, k, x + 1, y);
    } else if ring_v(rings[j], x + 1, y) != 0 {
        lemma_not_mutual(rings, f, j, k);
        lemma_hit(rings, f, k, j, x + 1, y);
    } else {
        lemma_step_left(rings[k], x + 1, y);
        lemma_step_left(rings[j], x + 1, y);
        lemma_nested(rings, f, j, k, x + 1, y);
    }
}

/// Two rings of which neither lies inside the other enclose no cell in common.
pub proof fn lemma_disjoint(rings: Seq<Seq<Edge>>, f: Region, j: int, k: int, x: int, y: int)
    requires
        boundary(rings, f),
        0 <= j < rings.len(),
        0 <= k < rings.len(),
        j != k,
        !inside(rings, k, j),
        !inside(rings, j, k),
    ensures
        ring_w(rings[j], x, y) == 0 || ring_w(rings[k], x, y) == 0,
    decreases i32::MAX - x,
{
    assert(ring_ok(rings[k]));
    if x >= i32::MAX {
        lemma_far(rings[k], x, y);
    } else if ring_v(rings[k], x + 1, y) != 0 {
        lemma_hit(rings, f, j, k, x + 1, y);
    } else if ring_v(rings[j], x + 1, y) != 0 {
        lemma_hit(rings, f, k, j, x + 1, y);
    } else {
        lemma_step_left(rings[k], x + 1, y);
        lemma_step_left(rings[j], x + 1, y);
        lemma_disjoint(rings, f, j, k, x + 1, y);
    }
}

/// Around every cell the windings of all rings add up to one in the region and
/// to zero outside.
pub proof fn lemma_total(rings: Seq<Seq<Edge>>, f: Region, x: int, y: int)
    requires
        boundary(rings, f),
    ensures
        total_w(rings, x, y) == ind(f(x, y)),
    decreases i32::MAX - x,
{
    if x >= i32::MAX {
        assert forall|k: int| 0 <= k < rings.len() implies ring_w(#[trigger] rings[k], x, y) == 0 by {
            assert(ring_ok(rings[k]));
            lemma_far(rings[k], x, y);
        }
        lemma_sum_zero(rings, |r: Seq<Edge>| ring_w(r, x, y));
    } else {
        lemma_total(rings, f, x + 1, y);
        assert(total_v(rings, x + 1, y) == step_v(f, x + 1, y));
        assert forall|k: int| 0 <= k < rings.len() implies ring_w(#[trigger] rings[k], x, y)
            == ring_w(rings[k], x + 1, y) + ring_v(rings[k], x + 1, y) by {
            lemma_step_left(rings[k], x + 1, y);
        }
        lemma_sum_split(
            rings,
            |r: Seq<Edge>| ring_w(r, x, y),
            |r: Seq<Edge>| ring_w(r, x + 1, y),
            |r: Seq<Edge>| ring_v(r, x + 1, y),
        );
    }
}

/// A ring that keeps what it encloses on its right.
pub open spec fn outer(rings: Seq<Seq<Edge>>, k: int) -> bool {
    near(rings, k, k) == 1
}

/// The column where a level edge begins on its left.
pub open spec fn left_end(e: Edge) -> int {
    if e.start.x < e.end.x {
        e.start.x as int
    } else {
        e.end.x as int
    }
}

/// The order in which edges come into being: from the top down, those that end
/// on a line before those that run along it, and these from left to right.
pub open spec fn comes_before(a: Edge, b: Edge) -> bool {
    let ya = if a.start.y > a.end.y { a.start.y } else { a.end.y };
    let yb = if b.start.y > b.end.y { b.start.y } else { b.end.y };
    ya < yb || (ya == yb && (a.start.y != a.end.y || (b.start.y == b.end.y && left_end(a)
        <= left_end(b))))
}

/// The region changes from the column before the point to the one behind it,
/// either above the point or below.
pub open spec fn breaks_at(f: Region, p: Coord) -> bool {
    f(p.x - 1, p.y as int) != f(p.x as int, p.y as int) || f(p.x - 1, p.y - 1) != f(
        p.x as int,
        p.y - 1,
    )
}

/// A level edge goes as far as it can: at both of its ends the region changes.
pub open spec fn sharp(e: Edge, f: Region) -> bool {
    e.start.y == e.end.y ==> breaks_at(f, e.start) && breaks_at(f, e.end)
}

/// No edge of the ring comes before its first.
pub open spec fn leads(r: Seq<Edge>) -> bool {
    forall|i: int| 0 <= i < r.len() ==> comes_before(r[0], #[trigger] r[i])
}

/// The cell at the lower right of a ring's first corner is a fair sample of the
/// ring's surroundings.
pub proof fn lemma_sample(rings: Seq<Seq<Edge>>, f: Region, h: int, j: int)
    requires
        boundary(rings, f),
        0 <= h < rings.len(),
        0 <= j < rings.len(),
        j != h,
        leads(rings[h]),
    ensures
        ring_w(rings[j], rings[h][0].start.x as int, rings[h][0].start.y as int) == near(
            rings,
            j,
            h,
        ),
{
    let r = rings[h];
    let n = r.len() - 1;
    assert(ring_ok(rings[h]));
    assert(borders(rings[h][0], f));
    assert(borders(rings[h][n], f));
    let first = rings[h][0];
    let last = rings[h][n];
    assert(straight(first) && straight(last));
    if n == 0 {
        assert(false);
    }
    assert(borders(rings[h][1], f));
    assert(rings[h][0].end == rings[h][1].start);
    lemma_joint(rings, f, h, n, 0, j);
    lemma_joint(rings, f, h, 0, 1, j);
    lemma_near(rings, f, h, 0, j, 0);
    lemma_near(rings, f, h, n, j, length(last) - 1);
    assert(comes_before(first, last));
    assert(comes_before(first, rings[h][1]));
}

/// Containment of rings is transitive.
pub proof fn lemma_inside_transitive(
    rings: Seq<Seq<Edge>>,
    f: Region,
    a: int,
    b: int,
    c: int,
)
    requires
        boundary(rings, f),
        0 <= a < rings.len(),
        0 <= b < rings.len(),
        0 <= c < rings.len(),
        a != b,
        b != c,
        inside(rings, a, b),
        inside(rings, b, c),
    ensures
        a != c,
        inside(rings, a, c),
{
    if a == c {
        lemma_not_mutual(rings, f, a, b);
    }
    let p = right_cell(rings[a][0], 0);
    lemma_nested(rings, f, c, b, p.0, p.1);
}

/// Two rings that enclose a common cell are nested.
pub proof fn lemma_comparable(
    rings: Seq<Seq<Edge>>,
    f: Region,
    j: int,
    k: int,
    x: int,
    y: int,
)
    requires
        boundary(rings, f),
        0 <= j < rings.len(),
        0 <= k < rings.len(),
        j != k,
        ring_w(rings[j], x, y) != 0,
        ring_w(rings[k], x, y) != 0,
    ensures
        inside(rings, j, k) || inside(rings, k, j),
{
    if !inside(rings, j, k) && !inside(rings, k, j) {
        lemma_disjoint(rings, f, j, k, x, y);
    }
}

/// Every inner ring lies inside some outer one.
pub proof fn lemma_has_outer(rings: Seq<Seq<Edge>>, f: Region, h: int) -> (k: int)
    requires
        boundary(rings, f),
        0 <= h < rings.len(),
        !outer(rings, h),
    ensures
        0 <= k < rings.len(),
        k != h,
        outer(rings, k),
        inside(rings, h, k),
{
    let c = right_cell(rings[h][0], 0);
    assert(ring_ok(rings[h]));
    assert(borders(rings[h][0], f));
    lemma_side(rings, f, h, 0, h, 0);
    lemma_total(rings, f, c.0, c.1);
    let k = lemma_sum_positive(rings, |r: Seq<Edge>| ring_w(r, c.0, c.1));
    lemma_values(rings, f, k, c.0, c.1);
    lemma_values(rings, f, h, c.0, c.1);
    k
}

} // verus!
