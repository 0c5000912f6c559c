//! The area of a ring, and what it says of nested rings.

use vstd::prelude::*;

use crate::boundary::Edge;
use crate::boundary::{
    borders, boundary, edge_crossing, inside, outer, right_cell, ring_ok, ring_w, straight, Region,
};
use crate::boundary::{
    lemma_far, lemma_nested, lemma_not_mutual, lemma_side, lemma_telescope, lemma_values,
};
use crate::geometry::cross_product;
use crate::geometry::Coord;
use crate::sums::{ind, sum};
use crate::sums::{lemma_sum_same, lemma_sum_scale, lemma_sum_split};

verus! {

/// The sum of `f` over the integers from `lo` up to, and without, `hi`.
pub open spec fn range_sum(lo: int, hi: int, f: spec_fn(int) -> int) -> int
    decreases hi - lo,
{
    if hi <= lo {
        0
    } else {
        range_sum(lo, hi - 1, f) + f(hi - 1)
    }
}

pub proof fn lemma_range_same(lo: int, hi: int, f: spec_fn(int) -> int, g: spec_fn(int) -> int)
    requires
        forall|x: int| lo <= x < hi ==> #[trigger] f(x) == g(x),
    ensures
        range_sum(lo, hi, f) == range_sum(lo, hi, g),
    decreases hi - lo,
{
    if lo < hi {
        lemma_range_same(lo, hi - 1, f, g);
        assert(f(hi - 1) == g(hi - 1));
    }
}

pub proof fn lemma_range_scale(lo: int, hi: int, f: spec_fn(int) -> int, g: spec_fn(int) -> int, c: int)
    requires
        forall|x: int| lo <= x < hi ==> #[trigger] f(x) == c * g(x),
    ensures
        range_sum(lo, hi, f) == c * range_sum(lo, hi, g),
    decreases hi - lo,
{
    if lo < hi {
        lemma_range_scale(lo, hi - 1, f, g, c);
        assert(f(hi - 1) == c * g(hi - 1));
        assert(c * (range_sum(lo, hi - 1, g) + g(hi - 1)) == c * range_sum(lo, hi - 1, g) + c * g(
            hi - 1,
        )) by (nonlinear_arith);
    } else {
        assert(c * 0 == 0);
    }
}

pub proof fn lemma_range_le(lo: int, hi: int, f: spec_fn(int) -> int, g: spec_fn(int) -> int)
    requires
        forall|x: int| lo <= x < hi ==> #[trigger] f(x) <= g(x),
    ensures
        range_sum(lo, hi, f) <= range_sum(lo, hi, g),
    decreases hi - lo,
{
    if lo < hi {
        lemma_range_le(lo, hi - 1, f, g);
        assert(f(hi - 1) <= g(hi - 1));
    }
}

pub proof fn lemma_range_lt(
    lo: int,
    hi: int,
    f: spec_fn(int) -> int,
    g: spec_fn(int) -> int,
    c: int,
)
    requires
        forall|x: int| lo <= x < hi ==> #[trigger] f(x) <= g(x),
        lo <= c < hi,
        f(c) < g(c),
    ensures
        range_sum(lo, hi, f) < range_sum(lo, hi, g),
    decreases hi - lo,
{
    assert(f(hi - 1) <= g(hi - 1));
    if c == hi - 1 {
        lemma_range_le(lo, hi - 1, f, g);
    } else {
        lemma_range_lt(lo, hi - 1, f, g, c);
    }
}

/// The integers of a range that lie below a bound.
pub proof fn lemma_range_count(lo: int, hi: int, b: int)
    requires
        lo <= b <= hi,
    ensures
        range_sum(lo, hi, |x: int| ind(b > x)) == b - lo,
    decreases hi - lo,
{
    let f = |x: int| ind(b > x);
    if lo < hi {
        if b == hi {
            lemma_range_count(lo, hi - 1, hi - 1);
            lemma_range_same(lo, hi - 1, f, |x: int| ind(hi - 1 > x));
        } else {
            lemma_range_count(lo, hi - 1, b);
        }
    }
}

/// Sums over a sequence and over a range may change places.
pub proof fn lemma_range_swap<T>(s: Seq<T>, lo: int, hi: int, g: spec_fn(T, int) -> int)
    ensures
        range_sum(lo, hi, |x: int| sum(s, |e: T| g(e, x))) == sum(
            s,
            |e: T| range_sum(lo, hi, |x: int| g(e, x)),
        ),
    decreases hi - lo,
{
    let total = |x: int| sum(s, |e: T| g(e, x));
    if lo < hi {
        lemma_range_swap(s, lo, hi - 1, g);
        lemma_sum_split(
            s,
            |e: T| range_sum(lo, hi, |x: int| g(e, x)),
            |e: T| range_sum(lo, hi - 1, |x: int| g(e, x)),
            |e: T| g(e, hi - 1),
        );
    } else {
        crate::sums::lemma_sum_zero(s, |e: T| range_sum(lo, hi, |x: int| g(e, x)));
    }
}

/// The least and the greatest coordinate.
pub open spec fn low() -> int {
    i32::MIN as int
}

pub open spec fn high() -> int {
    i32::MAX as int
}

/// The sum of a function over all cells.
pub open spec fn plane_sum(g: spec_fn(int, int) -> int) -> int {
    range_sum(low(), high(), |y: int| range_sum(low(), high(), |x: int| g(x, y)))
}

/// Twice the signed area of a ring of edges.
pub open spec fn ring_area(r: Seq<Edge>) -> int {
    sum(r, |e: Edge| cross_product(e.start, e.end))
}

proof fn lemma_edge_row(e: Edge, y: int)
    requires
        straight(e),
    ensures
        range_sum(low(), high(), |x: int| edge_crossing(e, x, y)) == (e.start.x - low()) * (ind(
            e.end.y > y,
        ) - ind(e.start.y > y)),
{
    let d = ind(e.end.y > y) - ind(e.start.y > y);
    let f = |x: int| edge_crossing(e, x, y);
    let g = |x: int| ind(e.start.x > x);
    if e.start.x == e.end.x {
        assert forall|x: int| low() <= x < high() implies #[trigger] f(x) == d * g(x) by {
            assert(d * 1 == d && d * 0 == 0);
        }
        lemma_range_scale(low(), high(), f, g, d);
        lemma_range_count(low(), high(), e.start.x as int);
        lemma_range_same(low(), high(), g, |x: int| ind(e.start.x as int > x));
        assert(d * (e.start.x - low()) == (e.start.x - low()) * d) by (nonlinear_arith);
    } else {
        assert(d == 0);
        lemma_range_scale(low(), high(), f, g, 0);
        assert((e.start.x - low()) * 0 == 0);
    }
}

proof fn lemma_edge_cells(e: Edge)
    ensures
        range_sum(
            low(),
            high(),
            |y: int| (e.start.x - low()) * (ind(e.end.y > y) - ind(e.start.y > y)),
        ) == (e.start.x - low()) * (e.end.y - e.start.y),
{
    let c = e.start.x - low();
    let d = |y: int| ind(e.end.y > y) - ind(e.start.y > y);
    lemma_range_scale(low(), high(), |y: int| c * (ind(e.end.y > y) - ind(e.start.y > y)), d, c);
    lemma_range_count(low(), high(), e.end.y as int);
    lemma_range_count(low(), high(), e.start.y as int);
    lemma_range_diff(
        low(),
        high(),
        |y: int| ind(e.end.y as int > y),
        |y: int| ind(e.start.y as int > y),
        d,
    );
}

proof fn lemma_range_diff(
    lo: int,
    hi: int,
    f: spec_fn(int) -> int,
    g: spec_fn(int) -> int,
    d: spec_fn(int) -> int,
)
    requires
        forall|x: int| lo <= x < hi ==> #[trigger] d(x) == f(x) - g(x),
    ensures
        range_sum(lo, hi, d) == range_sum(lo, hi, f) - range_sum(lo, hi, g),
    decreases hi - lo,
{
    if lo < hi {
        lemma_range_diff(lo, hi - 1, f, g, d);
        assert(d(hi - 1) == f(hi - 1) - g(hi - 1));
    }
}

/// What an edge adds to the cells of one row.
spec fn edge_row(e: Edge, y: int) -> int {
    (e.start.x - low()) * (ind(e.end.y > y) - ind(e.start.y > y))
}

/// What an edge adds to the cells of all rows.
spec fn edge_cells(e: Edge) -> int {
    (e.start.x - low()) * (e.end.y - e.start.y)
}

proof fn lemma_row(r: Seq<Edge>, y: int)
    requires
        ring_ok(r),
    ensures
        range_sum(low(), high(), |x: int| ring_w(r, x, y)) == sum(r, |e: Edge| edge_row(e, y)),
{
    let lo = low();
    let hi = high();
    let g = |e: Edge, x: int| edge_crossing(e, x, y);
    let w = |x: int| ring_w(r, x, y);
    let t = |x: int| sum(r, |e: Edge| g(e, x));
    lemma_range_swap(r, lo, hi, g);
    assert forall|x: int| lo <= x < hi implies #[trigger] w(x) == t(x) by {
        lemma_sum_same(r, |e: Edge| g(e, x), |e: Edge| edge_crossing(e, x, y));
    }
    lemma_range_same(lo, hi, w, t);
    let a = |e: Edge| range_sum(lo, hi, |x: int| g(e, x));
    let b = |e: Edge| edge_row(e, y);
    assert forall|i: int| 0 <= i < r.len() implies a(#[trigger] r[i]) == b(r[i]) by {
        assert(straight(r[i]));
        lemma_edge_row(r[i], y);
        lemma_range_same(lo, hi, |x: int| g(r[i], x), |x: int| edge_crossing(r[i], x, y));
    }
    lemma_sum_same(r, a, b);
}

proof fn lemma_cells(r: Seq<Edge>)
    requires
        ring_ok(r),
    ensures
        plane_sum(|x: int, y: int| ring_w(r, x, y)) == sum(r, |e: Edge| edge_cells(e)),
{
    let lo = low();
    let hi = high();
    let g = |e: Edge, y: int| edge_row(e, y);
    let w = |x: int, y: int| ring_w(r, x, y);
    let rw = |y: int| range_sum(lo, hi, |x: int| w(x, y));
    let t = |y: int| sum(r, |e: Edge| g(e, y));
    assert forall|y: int| lo <= y < hi implies #[trigger] rw(y) == t(y) by {
        lemma_row(r, y);
        lemma_range_same(lo, hi, |x: int| w(x, y), |x: int| ring_w(r, x, y));
        lemma_sum_same(r, |e: Edge| g(e, y), |e: Edge| edge_row(e, y));
    }
    lemma_range_same(lo, hi, rw, t);
    lemma_range_swap(r, lo, hi, g);
    let a = |e: Edge| range_sum(lo, hi, |y: int| g(e, y));
    let b = |e: Edge| edge_cells(e);
    assert forall|i: int| 0 <= i < r.len() implies a(#[trigger] r[i]) == b(r[i]) by {
        lemma_edge_cells(r[i]);
        let q = |y: int| (r[i].start.x - low()) * (ind(r[i].end.y > y) - ind(r[i].start.y > y));
        lemma_range_same(lo, hi, |y: int| g(r[i], y), q);
    }
    lemma_sum_same(r, a, b);
}

/// Green's formula: the doubled area counts each cell twice as often as the
/// ring winds around it.
pub proof fn lemma_green(r: Seq<Edge>)
    requires
        ring_ok(r),
    ensures
        ring_area(r) == 2 * plane_sum(|x: int, y: int| ring_w(r, x, y)),
{
    let lo = low();
    lemma_cells(r);
    // The shoelace terms differ from twice those cells by what telescopes.
    let phi = |p: Coord| -(p.x * p.y) + 2 * lo * p.y;
    let d = |e: Edge| phi(e.end) - phi(e.start);
    let cells = |e: Edge| edge_cells(e);
    let twice = |e: Edge| 2 * edge_cells(e);
    let shoelace = |e: Edge| cross_product(e.start, e.end);
    assert forall|i: int| 0 <= i < r.len() implies shoelace(#[trigger] r[i]) == twice(r[i]) + d(
        r[i],
    ) by {
        let e = r[i];
        assert(straight(e));
        let (a, b, c, g) = (e.start.x as int, e.start.y as int, e.end.x as int, e.end.y as int);
        assert(a * g - b * c == 2 * ((a - lo) * (g - b)) + (-(c * g) + 2 * lo * g) - (-(a * b) + 2
            * lo * b)) by (nonlinear_arith)
            requires
                a == c || b == g,
        ;
    }
    lemma_sum_split(r, shoelace, twice, d);
    lemma_sum_scale(r, twice, cells, 2);
    lemma_telescope(r, phi);
}

pub proof fn lemma_plane_lt(g: spec_fn(int, int) -> int, h: spec_fn(int, int) -> int, x: int, y: int)
    requires
        forall|a: int, b: int| #[trigger] g(a, b) <= h(a, b),
        low() <= x < high(),
        low() <= y < high(),
        g(x, y) < h(x, y),
    ensures
        plane_sum(g) < plane_sum(h),
{
    let lo = low();
    let hi = high();
    let gr = |b: int| range_sum(lo, hi, |a: int| g(a, b));
    let hr = |b: int| range_sum(lo, hi, |a: int| h(a, b));
    assert forall|b: int| lo <= b < hi implies #[trigger] gr(b) <= hr(b) by {
        lemma_range_le(lo, hi, |a: int| g(a, b), |a: int| h(a, b));
    }
    lemma_range_lt(lo, hi, |a: int| g(a, y), |a: int| h(a, y), x);
    lemma_range_lt(lo, hi, gr, hr, y);
}

pub proof fn lemma_plane_same(g: spec_fn(int, int) -> int, h: spec_fn(int, int) -> int)
    requires
        forall|a: int, b: int| #[trigger] g(a, b) == h(a, b),
    ensures
        plane_sum(g) == plane_sum(h),
{
    lemma_plane_scale(g, h, 1);
}

pub proof fn lemma_plane_add(
    g: spec_fn(int, int) -> int,
    h: spec_fn(int, int) -> int,
    k: spec_fn(int, int) -> int,
)
    requires
        forall|a: int, b: int| #[trigger] g(a, b) == h(a, b) + k(a, b),
    ensures
        plane_sum(g) == plane_sum(h) + plane_sum(k),
{
    let lo = low();
    let hi = high();
    let gr = |b: int| range_sum(lo, hi, |a: int| g(a, b));
    let hr = |b: int| range_sum(lo, hi, |a: int| h(a, b));
    let kr = |b: int| range_sum(lo, hi, |a: int| k(a, b));
    assert forall|b: int| lo <= b < hi implies #[trigger] kr(b) == gr(b) - hr(b) by {
        lemma_range_diff(lo, hi, |a: int| g(a, b), |a: int| h(a, b), |a: int| k(a, b));
    }
    lemma_range_diff(lo, hi, gr, hr, kr);
}

pub proof fn lemma_plane_scale(g: spec_fn(int, int) -> int, h: spec_fn(int, int) -> int, c: int)
    requires
        forall|a: int, b: int| #[trigger] g(a, b) == c * h(a, b),
    ensures
        plane_sum(g) == c * plane_sum(h),
{
    let lo = low();
    let hi = high();
    let gr = |b: int| range_sum(lo, hi, |a: int| g(a, b));
    let hr = |b: int| range_sum(lo, hi, |a: int| h(a, b));
    assert forall|b: int| lo <= b < hi implies #[trigger] gr(b) == c * hr(b) by {
        lemma_range_scale(lo, hi, |a: int| g(a, b), |a: int| h(a, b), c);
    }
    lemma_range_scale(lo, hi, gr, hr, c);
}

/// One for an outer ring, minus one for an inner one.
pub open spec fn sign(rings: Seq<Seq<Edge>>, k: int) -> int {
    if outer(rings, k) {
        1
    } else {
        -1
    }
}

/// The number of cells that a ring encloses, doubled.
pub open spec fn size(rings: Seq<Seq<Edge>>, k: int) -> int {
    sign(rings, k) * ring_area(rings[k])
}

proof fn lemma_size(rings: Seq<Seq<Edge>>, f: Region, k: int)
    requires
        boundary(rings, f),
        0 <= k < rings.len(),
    ensures
        size(rings, k) == 2 * plane_sum(|x: int, y: int| sign(rings, k) * ring_w(rings[k], x, y)),
{
    let s = sign(rings, k);
    assert(ring_ok(rings[k]));
    lemma_green(rings[k]);
    let w = |x: int, y: int| ring_w(rings[k], x, y);
    lemma_plane_scale(|x: int, y: int| s * ring_w(rings[k], x, y), w, s);
    assert(s * (2 * plane_sum(w)) == 2 * (s * plane_sum(w))) by (nonlinear_arith);
}

/// The area of a ring tells an outer ring from an inner one, and is never zero.
pub proof fn lemma_area_sign(rings: Seq<Seq<Edge>>, f: Region, k: int)
    requires
        boundary(rings, f),
        0 <= k < rings.len(),
    ensures
        outer(rings, k) ==> ring_area(rings[k]) > 0,
        !outer(rings, k) ==> ring_area(rings[k]) < 0,
        size(rings, k) > 0,
{
    let s = sign(rings, k);
    let c = right_cell(rings[k][0], 0);
    let g = |x: int, y: int| s * ring_w(rings[k], x, y);
    let zero = |x: int, y: int| 0int;
    assert(ring_ok(rings[k]));
    assert(borders(rings[k][0], f));
    lemma_size(rings, f, k);
    assert forall|a: int, b: int| #[trigger] zero(a, b) <= g(a, b) by {
        lemma_values(rings, f, k, a, b);
    }
    // A cell that the ring does wind around.
    let p = if outer(rings, k) {
        c
    } else {
        crate::boundary::left_cell(rings[k][0], 0)
    };
    lemma_side(rings, f, k, 0, k, 0);
    lemma_values(rings, f, k, p.0, p.1);
    assert(g(p.0, p.1) == 1);
    if p.0 < low() || p.0 >= high() || p.1 < low() || p.1 >= high() {
        lemma_far(rings[k], p.0, p.1);
    }
    lemma_plane_lt(zero, g, p.0, p.1);
    lemma_plane_scale(zero, zero, 0);
    assert(s * ring_area(rings[k]) > 0);
}

/// A ring inside another is the smaller of the two.
pub proof fn lemma_smaller(rings: Seq<Seq<Edge>>, f: Region, j: int, k: int)
    requires
        boundary(rings, f),
        0 <= j < rings.len(),
        0 <= k < rings.len(),
        j != k,
        inside(rings, k, j),
    ensures
        size(rings, k) < size(rings, j),
{
    let sj = sign(rings, j);
    let sk = sign(rings, k);
    let gj = |x: int, y: int| sj * ring_w(rings[j], x, y);
    let gk = |x: int, y: int| sk * ring_w(rings[k], x, y);
    lemma_size(rings, f, j);
    lemma_size(rings, f, k);
    assert forall|a: int, b: int| #[trigger] gk(a, b) <= gj(a, b) by {
        lemma_values(rings, f, k, a, b);
        lemma_values(rings, f, j, a, b);
        if ring_w(rings[k], a, b) != 0 {
            lemma_nested(rings, f, j, k, a, b);
        }
    }
    // A cell beside ring `j` that only ring `j` encloses.
    assert(ring_ok(rings[j]));
    assert(borders(rings[j][0], f));
    lemma_not_mutual(rings, f, j, k);
    crate::boundary::lemma_near(rings, f, j, 0, k, 0);
    crate::boundary::lemma_near(rings, f, j, 0, j, 0);
    let p = if outer(rings, j) {
        right_cell(rings[j][0], 0)
    } else {
        crate::boundary::left_cell(rings[j][0], 0)
    };
    lemma_values(rings, f, j, p.0, p.1);
    assert(gj(p.0, p.1) == 1);
    assert(gk(p.0, p.1) == 0);
    if p.0 < low() || p.0 >= high() || p.1 < low() || p.1 >= high() {
        lemma_far(rings[j], p.0, p.1);
    }
    lemma_plane_lt(gk, gj, p.0, p.1);
}

} // verus!
