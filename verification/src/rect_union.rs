//! The union of axis-aligned rectangles as polygons.

use vstd::prelude::*;

use crate::area::{lemma_green, lemma_plane_same, ring_area};
use crate::assembly::{
    bounded, cell_count, covers_piece, outlined, polygon_area, polygon_shape, polygons_area,
    ring_shape,
};
use crate::assembly::{
    lemma_assembles, lemma_closed_same, lemma_polygons_area, lemma_polygons_cover,
    lemma_polygons_pieces, lemma_polygons_shape,
};
use crate::boundary::{
    borders, comes_before, hseg, right_cell, ring_ok, ring_w, step_h, step_v, vseg, Edge, Region,
};
use crate::canonical::lemma_one_outline;
use crate::connection::connected;
use crate::connection::{
    lemma_connected_back, lemma_connected_in, lemma_connected_self, lemma_connected_step,
    lemma_connected_through,
};
use crate::contour::{are_contours, trace_contours, traced, UnionError};
use crate::corners::{bends, corner_ok, side};
use crate::drawing::lemma_outlines;
use crate::geometry::{
    closed, doubled_area, polygon_covers, polygons_view, step_sum, winding, Coord, LineString, Polygon,
};
use crate::outline::{
    covers_beside, leads_off, level_at, outlines_region, ring_at, ring_count, runs_along, side_at,
    side_count, upright_at,
};
use crate::polygons::contours_to_polygons;
use crate::sort::{ascending, lemma_same_elements, sort, Ordered};
use crate::sums::{ind, sum};
use crate::sweep::{region, sweep_edges};

verus! {

/// A rectangle of cells, from its upper left corner up to, and without, its
/// lower right one.
#[derive(Clone, Copy, Debug, PartialEq, Eq, Structural)]
pub struct IntRect {
    pub x1: i32,
    pub y1: i32,
    pub x2: i32,
    pub y2: i32,
}

impl IntRect {
    /// The rectangle has at least one cell.
    pub open spec fn valid(self) -> bool {
        self.x1 < self.x2 && self.y1 < self.y2
    }

    pub open spec fn covers(self, x: int, y: int) -> bool {
        self.x1 <= x < self.x2 && self.y1 <= y < self.y2
    }

    pub fn new(x1: i32, y1: i32, x2: i32, y2: i32) -> (rectangle: IntRect)
        requires
            x1 < x2,
            y1 < y2,
        ensures
            rectangle == (IntRect { x1, y1, x2, y2 }),
            rectangle.valid(),
    {
        IntRect { x1, y1, x2, y2 }
    }
}

/// One of the rectangles covers the cell.
pub open spec fn covered(rectangles: Seq<IntRect>, x: int, y: int) -> bool {
    exists|i: int| 0 <= i < rectangles.len() && (#[trigger] rectangles[i]).covers(x, y)
}

pub open spec fn all_valid(rectangles: Seq<IntRect>) -> bool {
    forall|i: int| 0 <= i < rectangles.len() ==> (#[trigger] rectangles[i]).valid()
}

/// One of the first `n` rectangles reaches over exactly the rows from `y1` to
/// `y2` and covers column `x`.
pub open spec fn row_covered(
    rectangles: Seq<IntRect>,
    n: int,
    y1: int,
    y2: int,
    x: int,
) -> bool {
    exists|i: int|
        0 <= i < n && (#[trigger] rectangles[i]).y1 == y1 && rectangles[i].y2 == y2
            && rectangles[i].x1 <= x < rectangles[i].x2
}

impl Ordered for IntRect {
    open spec fn leq(self, other: Self) -> bool {
        self.y1 < other.y1 || (self.y1 == other.y1 && (self.y2 < other.y2 || (self.y2 == other.y2
            && self.x1 <= other.x1)))
    }

    proof fn lemma_total(a: Self, b: Self) {
    }

    proof fn lemma_transitive(a: Self, b: Self, c: Self) {
    }

    fn at_most(&self, other: &Self) -> (r: bool) {
        self.y1 < other.y1 || (self.y1 == other.y1 && (self.y2 < other.y2 || (self.y2 == other.y2
            && self.x1 <= other.x1)))
    }
}

/// Each row has disjoint intervals in ascending order, with a gap after each.
pub open spec fn runs_merged(rectangles: Seq<IntRect>) -> bool {
    forall|i: int, j: int|
        #![trigger rectangles[i], rectangles[j]]
        0 <= i < j < rectangles.len() ==> {
            let a = rectangles[i];
            let b = rectangles[j];
            a.y1 < b.y1 || (a.y1 == b.y1 && (a.y2 < b.y2 || (a.y2 == b.y2 && a.x2 < b.x1)))
        }
}

/// Sorts the rectangles by row and merges the ones that share a row and touch,
/// so that each row is left with disjoint intervals in ascending order.
pub fn merge_horizontal_runs(rectangles: &mut Vec<IntRect>)
    requires
        all_valid(old(rectangles)@),
    ensures
        all_valid(final(rectangles)@),
        runs_merged(final(rectangles)@),
        forall|y1: int, y2: int, x: int| #[trigger]
            row_covered(final(rectangles)@, final(rectangles)@.len() as int, y1, y2, x)
                == row_covered(old(rectangles)@, old(rectangles)@.len() as int, y1, y2, x),
        final(rectangles)@.len() <= old(rectangles)@.len(),
{
    let ghost given = rectangles@;
    let mut unsorted: Vec<IntRect> = Vec::new();
    std::mem::swap(rectangles, &mut unsorted);
    let sorted = sort(unsorted);
    proof {
        lemma_same_elements(sorted@, given);
        assert forall|i: int| 0 <= i < sorted@.len() implies (#[trigger] sorted@[i]).valid() by {
            assert(sorted@.contains(sorted@[i]));
            let k = choose|k: int| 0 <= k < given.len() && given[k] == sorted@[i];
            assert(given[k].valid());
        }
    }
    let mut read: usize = 0;
    while read < sorted.len()
        invariant
            read <= sorted@.len(),
            ascending(sorted@),
            all_valid(sorted@),
            all_valid(rectangles@),
            runs_merged(rectangles@),
            rectangles@.len() <= read,
            read == 0 ==> rectangles@.len() == 0,
            read > 0 ==> {
                &&& rectangles@.len() > 0
                &&& rectangles@.last().y1 == sorted@[read - 1].y1
                &&& rectangles@.last().y2 == sorted@[read - 1].y2
                &&& rectangles@.last().x1 <= sorted@[read - 1].x1
            },
            forall|y1: int, y2: int, x: int| #[trigger]
                row_covered(rectangles@, rectangles@.len() as int, y1, y2, x) == row_covered(
                    sorted@,
                    read as int,
                    y1,
                    y2,
                    x,
                ),
        decreases sorted@.len() - read,
    {
        let rectangle = sorted[read];
        let kept: usize = rectangles.len();
        let ghost before = rectangles@;
        let ghost n = read as int;
        proof {
            assert(sorted@[n].valid());
            if n > 0 {
                assert(sorted@[n - 1].leq(sorted@[n]));
            }
        }
        if kept > 0 && rectangles[kept - 1].y1 == rectangle.y1 && rectangles[kept - 1].y2
            == rectangle.y2 && rectangle.x1 <= rectangles[kept - 1].x2 {
            let last = rectangles[kept - 1];
            let x2: i32 = if last.x2 < rectangle.x2 {
                rectangle.x2
            } else {
                last.x2
            };
            rectangles.set(kept - 1, IntRect { x1: last.x1, y1: last.y1, x2, y2: last.y2 });
        } else {
            rectangles.push(rectangle);
        }
        proof {
            let after = rectangles@;
            lemma_run_merged(before, after, sorted@, n);
        }
        read = read + 1;
    }
    proof {
        assert forall|y1: int, y2: int, x: int| #[trigger]
            row_covered(rectangles@, rectangles@.len() as int, y1, y2, x) == row_covered(
                given,
                given.len() as int,
                y1,
                y2,
                x,
            ) by {
            lemma_same_rows(sorted@, given, y1, y2, x);
        }
    }
}

proof fn lemma_same_rows(a: Seq<IntRect>, b: Seq<IntRect>, y1: int, y2: int, x: int)
    requires
        forall|r: IntRect| #[trigger] a.contains(r) <==> b.contains(r),
    ensures
        row_covered(a, a.len() as int, y1, y2, x) == row_covered(b, b.len() as int, y1, y2, x),
{
    if row_covered(a, a.len() as int, y1, y2, x) {
        let i = choose|i: int|
            0 <= i < a.len() && (#[trigger] a[i]).y1 == y1 && a[i].y2 == y2 && a[i].x1 <= x
                < a[i].x2;
        assert(a.contains(a[i]));
        let k = choose|k: int| 0 <= k < b.len() && b[k] == a[i];
        assert(b[k].y1 == y1);
    }
    if row_covered(b, b.len() as int, y1, y2, x) {
        let i = choose|i: int|
            0 <= i < b.len() && (#[trigger] b[i]).y1 == y1 && b[i].y2 == y2 && b[i].x1 <= x
                < b[i].x2;
        assert(b.contains(b[i]));
        assert(a.contains(b[i]));
        let k = choose|k: int| 0 <= k < a.len() && a[k] == b[i];
        assert(a[k].y1 == y1);
    }
}

/// One more rectangle, either merged into the last run or put behind it.
proof fn lemma_run_merged(
    before: Seq<IntRect>,
    after: Seq<IntRect>,
    sorted: Seq<IntRect>,
    n: int,
)
    requires
        0 <= n < sorted.len(),
        all_valid(sorted),
        all_valid(before),
        runs_merged(before),
        n == 0 ==> before.len() == 0,
        n > 0 ==> {
            &&& before.len() > 0
            &&& before.last().y1 == sorted[n - 1].y1
            &&& before.last().y2 == sorted[n - 1].y2
            &&& before.last().x1 <= sorted[n - 1].x1
            &&& sorted[n - 1].leq(sorted[n])
        },
        forall|y1: int, y2: int, x: int| #[trigger]
            row_covered(before, before.len() as int, y1, y2, x) == row_covered(
                sorted,
                n,
                y1,
                y2,
                x,
            ),
        ({
            let r = sorted[n];
            let k = before.len() - 1;
            if before.len() > 0 && before[k].y1 == r.y1 && before[k].y2 == r.y2 && r.x1
                <= before[k].x2 {
                after == before.update(
                    k,
                    IntRect {
                        x1: before[k].x1,
                        y1: before[k].y1,
                        x2: if before[k].x2 < r.x2 {
                            r.x2
                        } else {
                            before[k].x2
                        },
                        y2: before[k].y2,
                    },
                )
            } else {
                after == before.push(r)
            }
        }),
    ensures
        all_valid(after),
        runs_merged(after),
        after.len() > 0,
        after.last().y1 == sorted[n].y1,
        after.last().y2 == sorted[n].y2,
        after.last().x1 <= sorted[n].x1,
        forall|y1: int, y2: int, x: int| #[trigger]
            row_covered(after, after.len() as int, y1, y2, x) == row_covered(
                sorted,
                n + 1,
                y1,
                y2,
                x,
            ),
{
    let r = sorted[n];
    let k = before.len() - 1;
    assert(sorted[n].valid());
    if before.len() > 0 {
        assert(before[k].valid());
        assert(before.last() == before[k]);
    }
    assert forall|i: int| 0 <= i < after.len() implies (#[trigger] after[i]).valid() by {
        if i < before.len() {
            assert(before[i].valid());
        }
    }
    assert forall|i: int, j: int| #![trigger after[i], after[j]] 0 <= i < j < after.len() implies {
        let a = after[i];
        let b = after[j];
        a.y1 < b.y1 || (a.y1 == b.y1 && (a.y2 < b.y2 || (a.y2 == b.y2 && a.x2 < b.x1)))
    } by {
        if i < k {
            assert(after[i] == before[i]);
            assert(before[i].valid());
            let a = before[i];
            let b = before[k];
            assert(a.y1 < b.y1 || (a.y1 == b.y1 && (a.y2 < b.y2 || (a.y2 == b.y2 && a.x2 < b.x1))));
        }
    }
    assert forall|y1: int, y2: int, x: int| #[trigger]
        row_covered(after, after.len() as int, y1, y2, x) == row_covered(sorted, n + 1, y1, y2, x) by {
        assert(row_covered(before, before.len() as int, y1, y2, x) == row_covered(
            sorted,
            n,
            y1,
            y2,
            x,
        ));
        if row_covered(after, after.len() as int, y1, y2, x) {
            let i = choose|i: int|
                0 <= i < after.len() && (#[trigger] after[i]).y1 == y1 && after[i].y2 == y2
                    && after[i].x1 <= x < after[i].x2;
            if i < before.len() && before[i].x1 <= x < before[i].x2 {
                assert(before[i].y1 == y1);
                assert(row_covered(before, before.len() as int, y1, y2, x));
                let q = choose|q: int|
                    0 <= q < n && (#[trigger] sorted[q]).y1 == y1 && sorted[q].y2 == y2
                        && sorted[q].x1 <= x < sorted[q].x2;
                assert(sorted[q].y1 == y1);
            } else {
                assert(sorted[n].y1 == y1);
            }
        }
        if row_covered(sorted, n + 1, y1, y2, x) {
            let i = choose|i: int|
                0 <= i < n + 1 && (#[trigger] sorted[i]).y1 == y1 && sorted[i].y2 == y2
                    && sorted[i].x1 <= x < sorted[i].x2;
            if i < n {
                assert(sorted[i].y1 == y1);
                assert(row_covered(sorted, n, y1, y2, x));
                let q = choose|q: int|
                    0 <= q < before.len() && (#[trigger] before[q]).y1 == y1 && before[q].y2 == y2
                        && before[q].x1 <= x < before[q].x2;
                assert(after[q].y1 == y1);
            } else {
                let q = after.len() - 1;
                assert(after[q].y1 == y1);
            }
        }
    }
}

/// Merging runs covers no cell more and none less.
proof fn lemma_runs_cover(a: Seq<IntRect>, b: Seq<IntRect>, x: int, y: int)
    requires
        forall|y1: int, y2: int, x: int| #[trigger]
            row_covered(a, a.len() as int, y1, y2, x) == row_covered(b, b.len() as int, y1, y2, x),
    ensures
        covered(a, x, y) == covered(b, x, y),
{
    if covered(a, x, y) {
        let i = choose|i: int| 0 <= i < a.len() && (#[trigger] a[i]).covers(x, y);
        let y1 = a[i].y1 as int;
        let y2 = a[i].y2 as int;
        assert(row_covered(a, a.len() as int, y1, y2, x));
        let k = choose|k: int|
            0 <= k < b.len() && (#[trigger] b[k]).y1 == y1 && b[k].y2 == y2 && b[k].x1 <= x
                < b[k].x2;
        assert(b[k].covers(x, y));
    }
    if covered(b, x, y) {
        let i = choose|i: int| 0 <= i < b.len() && (#[trigger] b[i]).covers(x, y);
        let y1 = b[i].y1 as int;
        let y2 = b[i].y2 as int;
        assert(row_covered(b, b.len() as int, y1, y2, x));
        assert(row_covered(a, a.len() as int, y1, y2, x));
        let k = choose|k: int|
            0 <= k < a.len() && (#[trigger] a[k]).y1 == y1 && a[k].y2 == y2 && a[k].x1 <= x
                < a[k].x2;
        assert(a[k].covers(x, y));
    }
}

/// The polygons are the union of the rectangles: they cover the same cells, each
/// once, with rings that enclose exactly their area. Each polygon is one piece of
/// the union, so cells that meet in a corner only are in polygons of their own. The
/// rings are the outline of the union, corner by corner, in the order of their
/// first sides.
pub open spec fn is_union(rectangles: Seq<IntRect>, polygons: Seq<Polygon>) -> bool {
    &&& forall|x: int, y: int| #[trigger]
        covered(rectangles, x, y) <==> exists|k: int|
            0 <= k < polygons.len() && polygon_covers(#[trigger] polygons[k], x, y)
    &&& forall|j: int, k: int, x: int, y: int|
        0 <= j < polygons.len() && 0 <= k < polygons.len() && #[trigger] polygon_covers(
            polygons[j],
            x,
            y,
        ) && #[trigger] polygon_covers(polygons[k], x, y) ==> j == k
    &&& forall|k: int|
        0 <= k < polygons.len() ==> polygon_shape(#[trigger] polygons[k]) && covers_piece(
            region(rectangles),
            polygons[k],
        )
    &&& polygons_area(polygons) == 2 * cell_count(region(rectangles))
    &&& outlines_region(region(rectangles), polygons)
}

/// Rectangles that cover the same cells, in whatever order, however often and cut up
/// in whatever way, have one union: the same polygons in the same order, with the
/// same rings listing the same corners from the same one on.
pub proof fn lemma_one_union(
    a: Seq<IntRect>,
    b: Seq<IntRect>,
    p: Seq<Polygon>,
    q: Seq<Polygon>,
)
    requires
        forall|x: int, y: int| #[trigger] covered(a, x, y) == covered(b, x, y),
        is_union(a, p),
        is_union(b, q),
    ensures
        polygons_view(p) == polygons_view(q),
{
    lemma_same_region(a, b);
    lemma_one_outline(region(a), p, q);
}

/// Every ring of a union is closed and has at least four sides. Each of them leads
/// along an axis, and the next one along the other, also from the last to the first,
/// so no corner lies in the middle of a side.
pub proof fn lemma_rings_alternate(
    rectangles: Seq<IntRect>,
    polygons: Seq<Polygon>,
    k: int,
    j: int,
    i: int,
)
    requires
        is_union(rectangles, polygons),
        0 <= k < polygons.len(),
        0 <= j < ring_count(polygons[k]),
        0 <= i < side_count(ring_at(polygons[k], j)),
    ensures
        ({
            let ring = ring_at(polygons[k], j);
            let next = if i + 1 == side_count(ring) {
                1
            } else {
                i + 2
            };
            &&& side_count(ring) >= 4
            &&& ring[0] == ring.last()
            &&& (ring[i].x == ring[i + 1].x) != (ring[i].y == ring[i + 1].y)
            &&& (ring[i].x == ring[i + 1].x) != (ring[i + 1].x == ring[next].x)
        }),
{
    let ring = ring_at(polygons[k], j);
    let n = side_count(ring);
    assert(runs_along(region(rectangles), ring));
    assert(borders(side_at(ring, i), region(rectangles)));
    if i + 1 == n {
        assert(corner_ok(region(rectangles), ring[n - 1], ring[0], ring[1]));
    } else {
        assert(corner_ok(region(rectangles), ring[i], ring[i + 1], ring[i + 2]));
    }
}

/// Every polygon of a union covers a cell, and with it the whole piece that the cell
/// belongs to: there are as many polygons as pieces.
pub proof fn lemma_polygons_filled(
    rectangles: Seq<IntRect>,
    polygons: Seq<Polygon>,
    k: int,
) -> (cell: (int, int))
    requires
        is_union(rectangles, polygons),
        0 <= k < polygons.len(),
    ensures
        polygon_covers(polygons[k], cell.0, cell.1),
        covered(rectangles, cell.0, cell.1),
        forall|x: int, y: int| #[trigger]
            polygon_covers(polygons[k], x, y) <==> connected(region(rectangles), cell, (x, y)),
{
    let cell = right_cell(side_at(ring_at(polygons[k], 0), 0), 0);
    assert(runs_along(region(rectangles), ring_at(polygons[k], 0)));
    assert(covers_beside(polygons[k], 0));
    assert forall|x: int, y: int| #[trigger]
        polygon_covers(polygons[k], x, y) <==> connected(region(rectangles), cell, (x, y)) by {
        let b = (x, y);
        assert(polygon_covers(polygons[k], b.0, b.1) == polygon_covers(polygons[k], x, y));
    }
    cell
}

proof fn lemma_same_region(a: Seq<IntRect>, b: Seq<IntRect>)
    requires
        forall|x: int, y: int| #[trigger] covered(a, x, y) == covered(b, x, y),
    ensures
        region(a) == region(b),
{
    assert(region(a) =~= region(b));
}

/// A union is one of all rectangles that cover the same cells.
proof fn lemma_same_union(a: Seq<IntRect>, b: Seq<IntRect>, polygons: Seq<Polygon>)
    requires
        is_union(a, polygons),
        forall|x: int, y: int| #[trigger] covered(a, x, y) == covered(b, x, y),
    ensures
        is_union(b, polygons),
{
    lemma_same_region(a, b);
    assert forall|x: int, y: int| #[trigger] covered(b, x, y) <==> exists|k: int|
        0 <= k < polygons.len() && polygon_covers(#[trigger] polygons[k], x, y) by {
        assert(covered(a, x, y) == covered(b, x, y));
    }
}

/// A row of cells hangs together.
proof fn lemma_row_connected(f: Region, x1: int, x2: int, y: int)
    requires
        x1 <= x2,
        forall|x: int| x1 <= x <= x2 ==> #[trigger] f(x, y),
    ensures
        connected(f, (x1, y), (x2, y)),
    decreases x2 - x1,
{
    assert(f(x1, y) && f(x2, y));
    if x1 == x2 {
        lemma_connected_self(f, (x1, y));
    } else {
        lemma_row_connected(f, x1, x2 - 1, y);
        assert(f(x2 - 1, y));
        lemma_connected_step(f, (x2 - 1, y), (x2, y));
        lemma_connected_through(f, (x1, y), (x2 - 1, y), (x2, y));
    }
}

/// A column of cells hangs together.
proof fn lemma_column_connected(f: Region, x: int, y1: int, y2: int)
    requires
        y1 <= y2,
        forall|y: int| y1 <= y <= y2 ==> #[trigger] f(x, y),
    ensures
        connected(f, (x, y1), (x, y2)),
    decreases y2 - y1,
{
    assert(f(x, y1) && f(x, y2));
    if y1 == y2 {
        lemma_connected_self(f, (x, y1));
    } else {
        lemma_column_connected(f, x, y1, y2 - 1);
        assert(f(x, y2 - 1));
        lemma_connected_step(f, (x, y2 - 1), (x, y2));
        lemma_connected_through(f, (x, y1), (x, y2 - 1), (x, y2));
    }
}

/// The cells of a rectangle hang together.
proof fn lemma_rectangle_connected(f: Region, rectangle: IntRect, a: (int, int), b: (int, int))
    requires
        forall|x: int, y: int| #[trigger] f(x, y) == rectangle.covers(x, y),
        f(a.0, a.1),
        f(b.0, b.1),
    ensures
        connected(f, a, b),
{
    if a.0 <= b.0 {
        lemma_row_connected(f, a.0, b.0, a.1);
    } else {
        lemma_row_connected(f, b.0, a.0, a.1);
        lemma_connected_back(f, (b.0, a.1), a);
    }
    let c = (b.0, a.1);
    if a.1 <= b.1 {
        lemma_column_connected(f, b.0, a.1, b.1);
    } else {
        lemma_column_connected(f, b.0, b.1, a.1);
        lemma_connected_back(f, b, c);
    }
    lemma_connected_through(f, a, c, b);
}

/// A rectangle as a polygon, clockwise from its upper left corner.
fn rectangle_polygon(rectangle: IntRect) -> (polygon: Polygon)
    requires
        rectangle.valid(),
    ensures
        is_union(seq![rectangle], seq![polygon]),
{
    let mut points: Vec<Coord> = Vec::new();
    points.push(Coord { x: rectangle.x1, y: rectangle.y1 });
    points.push(Coord { x: rectangle.x2, y: rectangle.y1 });
    points.push(Coord { x: rectangle.x2, y: rectangle.y2 });
    points.push(Coord { x: rectangle.x1, y: rectangle.y2 });
    let ghost corners = points@;
    let polygon = Polygon::new(LineString(points), Vec::new());
    proof {
        lemma_rectangle(rectangle, corners, polygon);
    }
    polygon
}

proof fn lemma_rectangle(rectangle: IntRect, corners: Seq<Coord>, polygon: Polygon)
    requires
        rectangle.valid(),
        corners =~= seq![
            Coord { x: rectangle.x1, y: rectangle.y1 },
            Coord { x: rectangle.x2, y: rectangle.y1 },
            Coord { x: rectangle.x2, y: rectangle.y2 },
            Coord { x: rectangle.x1, y: rectangle.y2 },
        ],
        polygon.exterior.0@ == closed(corners),
        polygon.interiors@.len() == 0,
    ensures
        is_union(seq![rectangle], seq![polygon]),
{
    let one = seq![rectangle];
    let polygons = seq![polygon];
    assert forall|x: int, y: int| winding(corners, x, y) == #[trigger] ind(rectangle.covers(x, y)) by {
        reveal_with_fuel(step_sum, 6);
    }
    assert forall|x: int, y: int| #[trigger] covered(one, x, y) == rectangle.covers(x, y) by {
        if rectangle.covers(x, y) {
            assert(one[0].covers(x, y));
        }
    }
    assert forall|x: int, y: int| #[trigger] polygon_covers(polygon, x, y) == rectangle.covers(x, y) by {
        lemma_closed_same(corners, x, y);
        assert(winding(corners, x, y) == ind(rectangle.covers(x, y)));
    }
    assert forall|x: int, y: int| #[trigger] covered(one, x, y) <==> exists|k: int|
        0 <= k < polygons.len() && polygon_covers(#[trigger] polygons[k], x, y) by {
        assert(polygons[0] == polygon);
    }
    // The ring as edges, for its area.
    let r = seq![
        Edge { start: corners[0], end: corners[1], direction: 0 },
        Edge { start: corners[1], end: corners[2], direction: 1 },
        Edge { start: corners[2], end: corners[3], direction: 2 },
        Edge { start: corners[3], end: corners[0], direction: 3 },
    ];
    assert(ring_ok(r));
    lemma_green(r);
    assert(doubled_area(corners) == ring_area(r)) by {
        reveal_with_fuel(step_sum, 6);
        reveal_with_fuel(sum, 6);
    }
    let w = |x: int, y: int| ring_w(r, x, y);
    let f = region(one);
    let c = |x: int, y: int| ind(f(x, y));
    assert forall|x: int, y: int| #[trigger] w(x, y) == c(x, y) by {
        reveal_with_fuel(sum, 6);
        assert(covered(one, x, y) == rectangle.covers(x, y));
    }
    lemma_plane_same(w, c);
    lemma_closed_same(corners, 0, 0);
    assert(polygons_area(polygons) == polygon_area(polygon)) by {
        reveal_with_fuel(sum, 3);
        assert(polygons.drop_last() =~= Seq::empty());
    }
    assert(polygon_area(polygon) == doubled_area(corners)) by {
        reveal_with_fuel(sum, 2);
    }
    let width = rectangle.x2 - rectangle.x1;
    let height = rectangle.y2 - rectangle.y1;
    assert(doubled_area(corners) == 2 * (width * height)) by {
        reveal_with_fuel(step_sum, 6);
        let (x1, y1, x2, y2) = (
            rectangle.x1 as int,
            rectangle.y1 as int,
            rectangle.x2 as int,
            rectangle.y2 as int,
        );
        assert((x1 * y1 - y1 * x2) + (x2 * y2 - y1 * x2) + (x2 * y2 - y2 * x1) + (x1 * y1 - y2 * x1)
            == 2 * ((x2 - x1) * (y2 - y1))) by (nonlinear_arith);
    }
    assert(width * height > 0) by (nonlinear_arith)
        requires
            width > 0,
            height > 0,
    ;
    let q = closed(corners);
    assert(q =~= corners.push(corners[0]));
    assert(ring_shape(q));
    assert(polygon_shape(polygons[0]));
    lemma_rectangle_outline(rectangle, polygon);
    assert(covers_piece(f, polygons[0])) by {
        assert forall|x: int, y: int| #[trigger] f(x, y) == rectangle.covers(x, y) by {
            assert(covered(one, x, y) == rectangle.covers(x, y));
        }
        assert forall|a: (int, int), b: (int, int)|
            #![trigger connected(f, a, b)]
            #![trigger polygon_covers(polygon, a.0, a.1), polygon_covers(polygon, b.0, b.1)]
            polygon_covers(polygon, a.0, a.1) implies (polygon_covers(polygon, b.0, b.1)
            <==> connected(f, a, b)) by {
            if polygon_covers(polygon, b.0, b.1) {
                assert(f(a.0, a.1) && f(b.0, b.1));
                lemma_rectangle_connected(f, rectangle, a, b);
            }
            if connected(f, a, b) {
                lemma_connected_in(f, a, b);
                assert(f(b.0, b.1));
            }
        }
    }
}

/// The outline of a rectangle.
proof fn lemma_rectangle_outline(rectangle: IntRect, polygon: Polygon)
    requires
        rectangle.valid(),
        polygon.exterior.0@ =~= seq![
            Coord { x: rectangle.x1, y: rectangle.y1 },
            Coord { x: rectangle.x2, y: rectangle.y1 },
            Coord { x: rectangle.x2, y: rectangle.y2 },
            Coord { x: rectangle.x1, y: rectangle.y2 },
            Coord { x: rectangle.x1, y: rectangle.y1 },
        ],
        polygon.interiors@.len() == 0,
        forall|x: int, y: int| #[trigger]
            polygon_covers(polygon, x, y) == rectangle.covers(x, y),
    ensures
        outlines_region(region(seq![rectangle]), seq![polygon]),
{
    let one = seq![rectangle];
    let f = region(one);
    let polygons = seq![polygon];
    let q = polygon.exterior.0@;
    assert forall|x: int, y: int| #[trigger] f(x, y) == rectangle.covers(x, y) by {
        if rectangle.covers(x, y) {
            assert(one[0].covers(x, y));
        }
    }
    assert(side_count(q) == 4);
    assert(side_at(q, 0) == side(q[0], q[1]) && side_at(q, 1) == side(q[1], q[2]));
    assert(side_at(q, 2) == side(q[2], q[3]) && side_at(q, 3) == side(q[3], q[4]));
    assert forall|i: int| 0 <= i < 4 implies borders(#[trigger] side_at(q, i), f) by {
        let e = side_at(q, i);
        assert(i == 0 || i == 1 || i == 2 || i == 3);
        assert forall|x: int, y: int| #[trigger] vseg(e, x, y) != 0 implies vseg(e, x, y) == step_v(
            f,
            x,
            y,
        ) by {
            assert(f(x, y) == rectangle.covers(x, y));
            assert(f(x - 1, y) == rectangle.covers(x - 1, y));
        }
        assert forall|x: int, y: int| #[trigger] hseg(e, x, y) != 0 implies hseg(e, x, y) == step_h(
            f,
            x,
            y,
        ) by {
            assert(f(x, y) == rectangle.covers(x, y));
            assert(f(x, y - 1) == rectangle.covers(x, y - 1));
        }
    }
    assert(bends(q, f)) by {
        assert forall|i: int, j: int, k: int|
            #![trigger q[i], q[j], q[k]]
            0 <= i && j == i + 1 && k == i + 2 && k < q.len() implies corner_ok(
            f,
            q[i],
            q[j],
            q[k],
        ) by {
            assert(i == 0 || i == 1 || i == 2);
        }
    }
    assert(corner_ok(f, q[3], q[0], q[1]));
    assert(leads_off(q)) by {
        assert forall|i: int|
            0 <= i < side_count(q) && (#[trigger] side_at(q, i)).start.y == side_at(q, i).end.y implies comes_before(
            side_at(q, 0),
            side_at(q, i),
        ) by {
            assert(i == 0 || i == 1 || i == 2 || i == 3);
        }
    }
    assert forall|i: int, j: int| 0 <= i < j < 4 implies #[trigger] side_at(q, i)
        != #[trigger] side_at(q, j) by {
        assert(i == 0 || i == 1 || i == 2);
        assert(j == 1 || j == 2 || j == 3);
    }
    assert(runs_along(f, q));
    assert(polygons[0] == polygon);
    assert(ring_at(polygons[0], 0) == q);
    assert(covers_beside(polygon, 0)) by {
        let c = right_cell(side_at(q, 0), 0);
        assert(rectangle.covers(c.0, c.1));
        assert(polygon_covers(polygon, c.0, c.1));
    }
    assert forall|x: int, y: int| #[trigger] step_h(f, x, y) != 0 implies exists|
        k: int,
        j: int,
        i: int,
    | #[trigger] level_at(polygons, k, j, i, x, y) by {
        assert(f(x, y) == rectangle.covers(x, y));
        assert(f(x, y - 1) == rectangle.covers(x, y - 1));
        if y == rectangle.y1 {
            assert(level_at(polygons, 0, 0, 0, x, y));
        } else {
            assert(level_at(polygons, 0, 0, 2, x, y));
        }
    }
    assert forall|x: int, y: int| #[trigger] step_v(f, x, y) != 0 implies exists|
        k: int,
        j: int,
        i: int,
    | #[trigger] upright_at(polygons, k, j, i, x, y) by {
        assert(f(x, y) == rectangle.covers(x, y));
        assert(f(x - 1, y) == rectangle.covers(x - 1, y));
        if x == rectangle.x2 {
            assert(upright_at(polygons, 0, 0, 1, x, y));
        } else {
            assert(upright_at(polygons, 0, 0, 3, x, y));
        }
    }
    assert forall|k: int, j: int, i: int, l: int, h: int, g: int, x: int, y: int|
        #[trigger] level_at(polygons, k, j, i, x, y) && #[trigger] level_at(
            polygons,
            l,
            h,
            g,
            x,
            y,
        ) implies k == l && j == h && i == g by {
        assert(i == 0 || i == 1 || i == 2 || i == 3);
        assert(g == 0 || g == 1 || g == 2 || g == 3);
    }
    assert forall|k: int, j: int, i: int, l: int, h: int, g: int, x: int, y: int|
        #[trigger] upright_at(polygons, k, j, i, x, y) && #[trigger] upright_at(
            polygons,
            l,
            h,
            g,
            x,
            y,
        ) implies k == l && j == h && i == g by {
        assert(i == 0 || i == 1 || i == 2 || i == 3);
        assert(g == 0 || g == 1 || g == 2 || g == 3);
    }
}

/// Unions axis-aligned rectangles into polygons with rectilinear rings.
pub fn union_rectangles(rectangles: Vec<IntRect>) -> (outcome: Result<Vec<Polygon>, UnionError>)
    requires
        all_valid(rectangles@),
    ensures
        outcome matches Ok(polygons) && is_union(rectangles@, polygons@),
{
    let ghost given = rectangles@;
    let mut bands = rectangles;
    if bands.len() == 0 {
        let none: Vec<Polygon> = Vec::new();
        proof {
            lemma_no_union(given, none@);
        }
        return Ok(none);
    }
    // Rows of neighbouring cells collapse into single rectangles here, which
    // shrinks both the sweep's event count and its active set.
    if bands.len() > 1 {
        merge_horizontal_runs(&mut bands);
    }
    proof {
        assert forall|x: int, y: int| #[trigger] covered(bands@, x, y) == covered(given, x, y) by {
            lemma_runs_cover(bands@, given, x, y);
        }
    }
    if bands.len() == 1 {
        let polygon = rectangle_polygon(bands[0]);
        let mut polygons: Vec<Polygon> = Vec::new();
        polygons.push(polygon);
        proof {
            assert(bands@ =~= seq![bands@[0]]);
            assert(polygons@ =~= seq![polygon]);
            lemma_same_union(bands@, given, polygons@);
        }
        return Ok(polygons);
    }
    let edges = sweep_edges(&bands);
    match trace_contours(&edges) {
        Ok(contours) => {
            let ghost traced_contours = contours@;
            let ghost f = region(bands@);
            let ghost rings = choose|rings: Seq<Seq<Edge>>| #[trigger]
                traced(edges@, rings, traced_contours);
            proof {
                assert(are_contours(edges@, traced_contours));
                assert(bounded(f)) by {
                    assert forall|x: int, y: int| x >= i32::MAX implies !#[trigger] f(x, y) by {
                        if covered(bands@, x, y) {
                            let i = choose|i: int|
                                0 <= i < bands@.len() && (#[trigger] bands@[i]).covers(x, y);
                            assert(bands@[i].covers(x, y));
                        }
                    }
                }
                assert(outlined(edges@, rings, traced_contours, f));
                lemma_assembles(edges@, rings, traced_contours, f);
            }
            let outcome = contours_to_polygons(contours);
            proof {
                let polygons = outcome->Ok_0@;
                lemma_polygons_cover(edges@, rings, traced_contours, polygons, f);
                lemma_polygons_shape(edges@, rings, traced_contours, polygons, f);
                lemma_polygons_area(edges@, rings, traced_contours, polygons, f);
                lemma_polygons_pieces(edges@, rings, traced_contours, polygons, f);
                lemma_outlines(edges@, rings, traced_contours, polygons, f);
                assert forall|x: int, y: int| #[trigger] covered(bands@, x, y) <==> exists|k: int|
                    0 <= k < polygons.len() && polygon_covers(#[trigger] polygons[k], x, y) by {
                    assert(f(x, y) == covered(bands@, x, y));
                }
                lemma_same_union(bands@, given, polygons);
            }
            outcome
        },
        Err(error) => Err(error),
    }
}

proof fn lemma_no_union(rectangles: Seq<IntRect>, polygons: Seq<Polygon>)
    requires
        rectangles.len() == 0,
        polygons.len() == 0,
    ensures
        is_union(rectangles, polygons),
{
    let f = region(rectangles);
    let c = |x: int, y: int| ind(f(x, y));
    assert forall|x: int, y: int| !#[trigger] covered(rectangles, x, y) by {
    }
    assert forall|x: int, y: int| #[trigger] step_h(f, x, y) == 0 && step_v(f, x, y) == 0 by {
        assert(!covered(rectangles, x, y) && !covered(rectangles, x, y - 1));
        assert(!covered(rectangles, x - 1, y));
    }
    assert forall|x: int, y: int| #[trigger] step_v(f, x, y) == 0 by {
        assert(step_h(f, x, y) == 0);
    }
    assert forall|x: int, y: int| #[trigger] c(x, y) == 0 * c(x, y) by {
        assert(!covered(rectangles, x, y));
    }
    crate::area::lemma_plane_scale(c, c, 0);
}

/// What the polygons of a union cover, in terms of the sides of the rectangles: a cell if
/// and only if some rectangle reaches over its column and over its row. Exteriors run
/// clockwise, and interiors the other way round.
pub proof fn lemma_union_says(
    rectangles: Seq<IntRect>,
    polygons: Seq<Polygon>,
    x: int,
    y: int,
)
    requires
        is_union(rectangles, polygons),
    ensures
        (exists|k: int| 0 <= k < polygons.len() && polygon_covers(#[trigger] polygons[k], x, y))
            <==> exists|i: int|
            0 <= i < rectangles.len() && (#[trigger] rectangles[i]).x1 <= x < rectangles[i].x2
                && rectangles[i].y1 <= y < rectangles[i].y2,
        forall|k: int|
            0 <= k < polygons.len() ==> crate::geometry::doubled_area(
                (#[trigger] polygons[k]).exterior.0@,
            ) > 0,
        forall|k: int, i: int|
            #![trigger polygons[k].interiors@[i]]
            0 <= k < polygons.len() && 0 <= i < polygons[k].interiors@.len()
                ==> crate::geometry::doubled_area(polygons[k].interiors@[i].0@) < 0,
{
    assert(covered(rectangles, x, y) <==> exists|k: int|
        0 <= k < polygons.len() && polygon_covers(#[trigger] polygons[k], x, y));
    if covered(rectangles, x, y) {
        let i = choose|i: int|
            0 <= i < rectangles.len() && (#[trigger] rectangles[i]).covers(x, y);
        assert(rectangles[i].x1 <= x < rectangles[i].x2);
    }
    if exists|i: int|
        0 <= i < rectangles.len() && (#[trigger] rectangles[i]).x1 <= x < rectangles[i].x2
            && rectangles[i].y1 <= y < rectangles[i].y2 {
        let i = choose|i: int|
            0 <= i < rectangles.len() && (#[trigger] rectangles[i]).x1 <= x < rectangles[i].x2
                && rectangles[i].y1 <= y < rectangles[i].y2;
        assert(rectangles[i].covers(x, y));
    }
    assert forall|k: int, i: int|
        #![trigger polygons[k].interiors@[i]]
        0 <= k < polygons.len() && 0 <= i < polygons[k].interiors@.len() implies
        crate::geometry::doubled_area(polygons[k].interiors@[i].0@) < 0 by {
        assert(polygon_shape(polygons[k]));
    }
}

} // verus!
