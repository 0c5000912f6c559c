//! What pins the polygons of a region down: their rings run along its whole
//! boundary, each step of it once, turn wherever the region turns, and come in the
//! order of their first sides.

use vstd::prelude::*;

use crate::boundary::{
    borders, comes_before, hseg, left_end, right_cell, step_h, step_v, vseg, Edge, Region,
};
use crate::corners::{bends, corner_ok, side};
use crate::geometry::{polygon_covers, Coord, Polygon};

verus! {

/// How many sides a ring has whose first point is repeated at the end.
pub open spec fn side_count(ring: Seq<Coord>) -> int {
    ring.len() - 1
}

/// A side of a ring.
pub open spec fn side_at(ring: Seq<Coord>, i: int) -> Edge {
    side(ring[i], ring[i + 1])
}

/// The first side is level, and of the level ones the first from the top, and of
/// those on its line the first from the left.
pub open spec fn leads_off(ring: Seq<Coord>) -> bool {
    let first = side_at(ring, 0);
    &&& first.start.y == first.end.y
    &&& forall|i: int|
        0 <= i < side_count(ring) && (#[trigger] side_at(ring, i)).start.y == side_at(ring, i).end.y
            ==> comes_before(first, side_at(ring, i))
}

/// The ring runs along the boundary of the region and has it on its right. It has a
/// corner exactly where it turns, takes the first way to the right wherever there
/// are two, and takes no side twice.
pub open spec fn runs_along(f: Region, ring: Seq<Coord>) -> bool {
    let n = side_count(ring);
    &&& n >= 4
    &&& ring[0] == ring[n]
    &&& forall|i: int| 0 <= i < n ==> borders(#[trigger] side_at(ring, i), f)
    &&& forall|i: int, j: int|
        0 <= i < j < n ==> #[trigger] side_at(ring, i) != #[trigger] side_at(ring, j)
    &&& bends(ring, f)
    &&& corner_ok(f, ring[n - 1], ring[0], ring[1])
    &&& leads_off(ring)
}

/// The first side of one ring stands before that of another: higher up, or further
/// left on the same line.
pub open spec fn starts_before(a: Seq<Coord>, b: Seq<Coord>) -> bool {
    let p = side_at(a, 0);
    let q = side_at(b, 0);
    p.start.y < q.start.y || (p.start.y == q.start.y && left_end(p) < left_end(q))
}

/// Ring number `i` of a polygon: first its exterior, then its interiors.
pub open spec fn ring_at(polygon: Polygon, i: int) -> Seq<Coord> {
    if i == 0 {
        polygon.exterior.0@
    } else {
        polygon.interiors@[i - 1].0@
    }
}

pub open spec fn ring_count(polygon: Polygon) -> int {
    1 + polygon.interiors@.len() as int
}

/// The polygon covers the cells on the right of one of its rings.
pub open spec fn covers_beside(polygon: Polygon, i: int) -> bool {
    let c = right_cell(side_at(ring_at(polygon, i), 0), 0);
    polygon_covers(polygon, c.0, c.1)
}

/// Side `i` of ring `j` of polygon `k` runs along the level step at `(x, y)`.
pub open spec fn level_at(polygons: Seq<Polygon>, k: int, j: int, i: int, x: int, y: int) -> bool {
    &&& 0 <= k < polygons.len()
    &&& 0 <= j < ring_count(polygons[k])
    &&& 0 <= i < side_count(ring_at(polygons[k], j))
    &&& hseg(side_at(ring_at(polygons[k], j), i), x, y) != 0
}

/// Side `i` of ring `j` of polygon `k` runs along the upright step at `(x, y)`.
pub open spec fn upright_at(
    polygons: Seq<Polygon>,
    k: int,
    j: int,
    i: int,
    x: int,
    y: int,
) -> bool {
    &&& 0 <= k < polygons.len()
    &&& 0 <= j < ring_count(polygons[k])
    &&& 0 <= i < side_count(ring_at(polygons[k], j))
    &&& vseg(side_at(ring_at(polygons[k], j), i), x, y) != 0
}

/// The polygons outline the region: every step of its boundary lies on one side of
/// one ring, and every ring has its place.
pub open spec fn outlines_region(f: Region, polygons: Seq<Polygon>) -> bool {
    &&& forall|k: int, j: int|
        0 <= k < polygons.len() && 0 <= j < ring_count(polygons[k]) ==> runs_along(
            f,
            #[trigger] ring_at(polygons[k], j),
        ) && covers_beside(polygons[k], j)
    &&& forall|x: int, y: int|
        #[trigger] step_h(f, x, y) != 0 ==> exists|k: int, j: int, i: int| #[trigger]
            level_at(polygons, k, j, i, x, y)
    &&& forall|x: int, y: int|
        #[trigger] step_v(f, x, y) != 0 ==> exists|k: int, j: int, i: int| #[trigger]
            upright_at(polygons, k, j, i, x, y)
    &&& forall|k: int, j: int, i: int, l: int, h: int, g: int, x: int, y: int|
        #[trigger] level_at(polygons, k, j, i, x, y) && #[trigger] level_at(
            polygons,
            l,
            h,
            g,
            x,
            y,
        ) ==> k == l && j == h && i == g
    &&& forall|k: int, j: int, i: int, l: int, h: int, g: int, x: int, y: int|
        #[trigger] upright_at(polygons, k, j, i, x, y) && #[trigger] upright_at(
            polygons,
            l,
            h,
            g,
            x,
            y,
        ) ==> k == l && j == h && i == g
    &&& forall|k: int, l: int|
        #![trigger polygons[k], polygons[l]]
        0 <= k < l < polygons.len() ==> starts_before(
            polygons[k].exterior.0@,
            polygons[l].exterior.0@,
        )
    &&& forall|k: int, i: int, j: int|
        0 <= k < polygons.len() && 0 <= i < j < polygons[k].interiors@.len() ==> starts_before(
            #[trigger] polygons[k].interiors@[i].0@,
            #[trigger] polygons[k].interiors@[j].0@,
        )
}

} // verus!
