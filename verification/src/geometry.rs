//! Points, rings and polygons on the integer lattice.
//!
//! The plane is cut into unit cells: cell `(x, y)` is the square whose corners
//! are `(x, y)` and `(x + 1, y + 1)`. The Y axis points down, as it does in a
//! tile.

use vstd::prelude::*;

use crate::sums::ind;

verus! {

/// A lattice point.
#[derive(Clone, Copy, Debug, PartialEq, Eq, Structural)]
pub struct Coord {
    pub x: i32,
    pub y: i32,
}

/// How the step from `p` to `q` crosses the ray that leaves the middle of cell
/// `(x, y)` to the right: one when it runs down across the ray, minus one when
/// it runs up across it, zero otherwise. Only a vertical step can cross.
pub open spec fn crossing(p: Coord, q: Coord, x: int, y: int) -> int {
    if p.x == q.x && p.x > x {
        ind(q.y > y) - ind(p.y > y)
    } else {
        0
    }
}

/// The sum of `f` over the first `n` steps of a ring, the step behind the last
/// point leading back to the first.
pub open spec fn step_sum(ring: Seq<Coord>, n: nat, f: spec_fn(Coord, Coord) -> int) -> int
    decreases n,
{
    if n == 0 {
        0
    } else {
        step_sum(ring, (n - 1) as nat, f) + f(ring[n - 1], ring[n as int % ring.len() as int])
    }
}

/// How many times a ring winds around cell `(x, y)`, counted clockwise on a
/// screen whose Y axis points down.
pub open spec fn winding(ring: Seq<Coord>, x: int, y: int) -> int {
    step_sum(ring, ring.len(), |p: Coord, q: Coord| crossing(p, q, x, y))
}

/// Whether the ring encloses cell `(x, y)` by the even-odd rule.
pub open spec fn encloses(ring: Seq<Coord>, x: int, y: int) -> bool {
    winding(ring, x, y) % 2 != 0
}

/// Twice the area of the triangle between the origin and the step, signed.
pub open spec fn cross_product(p: Coord, q: Coord) -> int {
    p.x * q.y - p.y * q.x
}

/// Twice the signed area of a ring, by the shoelace formula.
pub open spec fn doubled_area(ring: Seq<Coord>) -> int {
    step_sum(ring, ring.len(), |p: Coord, q: Coord| cross_product(p, q))
}

/// A sequence of points. As a ring, its last point leads back to its first.
#[derive(Clone, Debug, PartialEq, Eq)]
pub struct LineString(pub Vec<Coord>);

/// The ring with its first point repeated at the end, where it was not.
pub open spec fn closed(ring: Seq<Coord>) -> Seq<Coord> {
    if ring.len() > 0 && ring[0] != ring.last() {
        ring.push(ring[0])
    } else {
        ring
    }
}

impl LineString {
    /// Repeats the first point at the end, where it does not stand there yet.
    pub fn close(self) -> (ring: LineString)
        ensures
            ring.0@ == closed(self.0@),
    {
        let mut ring = self;
        let count: usize = ring.0.len();
        if count > 0 && ring.0[0] != ring.0[count - 1] {
            let first = ring.0[0];
            ring.0.push(first);
        }
        ring
    }
}

/// An exterior ring and the rings that are cut out of it, all of them closed.
#[derive(Clone, Debug, PartialEq, Eq)]
pub struct Polygon {
    pub exterior: LineString,
    pub interiors: Vec<LineString>,
}

impl Polygon {
    pub fn new(exterior: LineString, interiors: Vec<LineString>) -> (polygon: Polygon)
        ensures
            polygon.exterior.0@ == closed(exterior.0@),
            polygon.interiors@.len() == interiors@.len(),
            forall|i: int|
                0 <= i < interiors@.len() ==> (#[trigger] polygon.interiors@[i]).0@ == closed(
                    interiors@[i].0@,
                ),
    {
        let ghost given = interiors@;
        let mut rings: Vec<LineString> = Vec::new();
        for ring in it: interiors
            invariant
                it.seq() == given,
                rings@.len() == it.index(),
                forall|i: int|
                    0 <= i < rings@.len() ==> (#[trigger] rings@[i]).0@ == closed(given[i].0@),
        {
            rings.push(ring.close());
        }
        Polygon { exterior: exterior.close(), interiors: rings }
    }

    pub fn exterior(&self) -> (ring: &LineString)
        ensures
            *ring == self.exterior,
    {
        &self.exterior
    }

    pub fn interiors(&self) -> (rings: &Vec<LineString>)
        ensures
            *rings == self.interiors,
    {
        &self.interiors
    }
}

/// The polygon covers cell `(x, y)`.
pub open spec fn polygon_covers(polygon: Polygon, x: int, y: int) -> bool {
    &&& encloses(polygon.exterior.0@, x, y)
    &&& forall|i: int|
        0 <= i < polygon.interiors@.len() ==> !encloses((#[trigger] polygon.interiors@[i]).0@, x, y)
}

/// What rings hold.
pub open spec fn rings_view(rings: Seq<LineString>) -> Seq<Seq<Coord>> {
    rings.map_values(|ring: LineString| ring.0@)
}

/// What polygons hold.
pub open spec fn polygons_view(polygons: Seq<Polygon>) -> Seq<(Seq<Coord>, Seq<Seq<Coord>>)> {
    polygons.map_values(|p: Polygon| (p.exterior.0@, rings_view(p.interiors@)))
}

/// Steps that lead nowhere add nothing, so closing a ring changes no sum.
pub proof fn lemma_closed_sum(ring: Seq<Coord>, f: spec_fn(Coord, Coord) -> int)
    requires
        forall|p: Coord| #[trigger] f(p, p) == 0,
    ensures
        step_sum(closed(ring), closed(ring).len(), f) == step_sum(ring, ring.len(), f),
{
    let c = closed(ring);
    if c.len() == ring.len() + 1 {
        let n = ring.len();
        lemma_prefix_sum(ring, c, (n - 1) as nat, f);
        let m = n as int;
        assert(m % m == 0 && m % (m + 1) == m && (m + 1) % (m + 1) == 0) by (nonlinear_arith)
            requires
                m > 0,
        ;
        assert(c[n - 1] == ring[n - 1]);
        assert(c[n as int] == ring[0]);
        assert(f(ring[0], ring[0]) == 0);
        assert(step_sum(c, n, f) == step_sum(c, (n - 1) as nat, f) + f(c[n - 1], c[n as int]));
        assert(step_sum(c, n + 1, f) == step_sum(c, n, f) + f(c[n as int], c[0]));
    }
}

/// A sum over leading steps depends on the leading points alone.
pub proof fn lemma_prefix_sum(a: Seq<Coord>, b: Seq<Coord>, n: nat, f: spec_fn(Coord, Coord) -> int)
    requires
        n < a.len(),
        n < b.len(),
        forall|i: int| 0 <= i <= n ==> a[i] == #[trigger] b[i],
    ensures
        step_sum(a, n, f) == step_sum(b, n, f),
    decreases n,
{
    if n > 0 {
        lemma_prefix_sum(a, b, (n - 1) as nat, f);
        assert(n as int % a.len() as int == n) by (nonlinear_arith)
            requires
                0 < n < a.len(),
        ;
        assert(n as int % b.len() as int == n) by (nonlinear_arith)
            requires
                0 < n < b.len(),
        ;
        assert(a[n - 1] == b[n - 1]);
        assert(a[n as int] == b[n as int]);
    }
}

/// Whether the ring encloses the cell at the lower right of `point`. Every ring
/// here is rectilinear, so only the vertical steps can be crossed and the
/// crossing needs no interpolation.
pub fn contains(ring: &LineString, point: Coord) -> (inside: bool)
    ensures
        inside == encloses(ring.0@, point.x as int, point.y as int),
{
    let ghost f = |p: Coord, q: Coord| crossing(p, q, point.x as int, point.y as int);
    let count: usize = ring.0.len();
    let mut inside = false;
    let mut index: usize = 0;
    while index < count
        invariant
            count == ring.0@.len(),
            index <= count,
            f == (|p: Coord, q: Coord| crossing(p, q, point.x as int, point.y as int)),
            inside == (step_sum(ring.0@, index as nat, f) % 2 != 0),
        decreases count - index,
    {
        let left = ring.0[index];
        let right = ring.0[(index + 1) % count];
        if left.x == right.x && (left.y > point.y) != (right.y > point.y) && point.x < left.x {
            inside = !inside;
        }
        proof {
            let before = step_sum(ring.0@, index as nat, f);
            let d = f(left, right);
            assert(step_sum(ring.0@, (index + 1) as nat, f) == before + d);
            assert(d == 0 || d == 1 || d == -1);
        }
        index = index + 1;
    }
    inside
}

/// Twice the signed area of the ring, positive where it runs clockwise on a
/// screen.
pub fn signed_area(ring: &LineString) -> (area: i128)
    ensures
        area == doubled_area(ring.0@),
{
    let ghost f = |p: Coord, q: Coord| cross_product(p, q);
    let count: usize = ring.0.len();
    let mut area: i128 = 0;
    let mut index: usize = 0;
    while index < count
        invariant
            count == ring.0@.len(),
            index <= count,
            f == (|p: Coord, q: Coord| cross_product(p, q)),
            area == step_sum(ring.0@, index as nat, f),
            -0x8000_0000_0000_0000 * index <= area <= 0x8000_0000_0000_0000 * index,
        decreases count - index,
    {
        let left = ring.0[index];
        let right = ring.0[(index + 1) % count];
        proof {
            lemma_term_bound(left, right);
            assert(f(left, right) == cross_product(left, right));
            assert(index < 0x1_0000_0000_0000_0000);
        }
        let down: i128 = left.x as i128 * right.y as i128;
        let up: i128 = left.y as i128 * right.x as i128;
        area = area + (down - up);
        index = index + 1;
    }
    area
}

/// The sum of `f` along a way that does not lead back.
pub open spec fn path_sum(path: Seq<Coord>, f: spec_fn(Coord, Coord) -> int) -> int
    decreases path.len(),
{
    if path.len() < 2 {
        0
    } else {
        path_sum(path.drop_last(), f) + f(path[path.len() - 2], path.last())
    }
}

/// A ring is a way and the step that leads back.
proof fn lemma_round(ring: Seq<Coord>, f: spec_fn(Coord, Coord) -> int)
    requires
        ring.len() > 0,
    ensures
        step_sum(ring, ring.len(), f) == path_sum(ring, f) + f(ring.last(), ring[0]),
{
    let n = ring.len() as int;
    vstd::arithmetic::div_mod::lemma_mod_self_0(n);
    lemma_way(ring, (n - 1) as nat, f);
    assert(ring.take(n) =~= ring);
}

proof fn lemma_way(ring: Seq<Coord>, n: nat, f: spec_fn(Coord, Coord) -> int)
    requires
        n < ring.len(),
    ensures
        step_sum(ring, n, f) == path_sum(ring.take(n as int + 1), f),
    decreases n,
{
    if n > 0 {
        lemma_way(ring, (n - 1) as nat, f);
        vstd::arithmetic::div_mod::lemma_small_mod(n, ring.len());
        assert(ring.take(n as int + 1).drop_last() =~= ring.take(n as int));
    }
}

/// Two ways, one behind the other, are joined by a step.
proof fn lemma_joined(a: Seq<Coord>, b: Seq<Coord>, f: spec_fn(Coord, Coord) -> int)
    requires
        a.len() > 0,
        b.len() > 0,
    ensures
        path_sum(a + b, f) == path_sum(a, f) + f(a.last(), b[0]) + path_sum(b, f),
    decreases b.len(),
{
    let c = a + b;
    assert(c.drop_last() =~= a + b.drop_last());
    if b.len() > 1 {
        lemma_joined(a, b.drop_last(), f);
    } else {
        assert(a + b.drop_last() =~= a);
    }
}

/// A way the other way round.
proof fn lemma_path_reversed(
    path: Seq<Coord>,
    f: spec_fn(Coord, Coord) -> int,
    g: spec_fn(Coord, Coord) -> int,
)
    requires
        forall|p: Coord, q: Coord| #[trigger] g(p, q) == -f(q, p),
    ensures
        path_sum(path.reverse(), g) == -path_sum(path, f),
    decreases path.len(),
{
    let n = path.len();
    if n >= 2 {
        let shorter = path.drop_last();
        lemma_path_reversed(shorter, f, g);
        let last = seq![path.last()];
        assert(path.reverse() =~= last + shorter.reverse());
        lemma_joined(last, shorter.reverse(), g);
        assert(shorter.reverse()[0] == path[n - 2]);
        assert(g(path.last(), path[n - 2]) == -f(path[n - 2], path.last()));
    }
}

/// The other way round a ring has the negative of its area.
pub proof fn lemma_area_reversed(ring: Seq<Coord>)
    ensures
        doubled_area(ring.reverse()) == -doubled_area(ring),
{
    let f = |p: Coord, q: Coord| cross_product(p, q);
    if ring.len() > 0 {
        assert forall|p: Coord, q: Coord| #[trigger] f(p, q) == -f(q, p) by {
            lemma_swapped(p, q);
        }
        lemma_path_reversed(ring, f, f);
        lemma_round(ring, f);
        lemma_round(ring.reverse(), f);
        assert(f(ring[0], ring.last()) == -f(ring.last(), ring[0]));
    } else {
        assert(ring.reverse() =~= ring);
    }
}

proof fn lemma_swapped(p: Coord, q: Coord)
    ensures
        cross_product(p, q) == -cross_product(q, p),
{
    let (a, b, c, d) = (p.x as int, p.y as int, q.x as int, q.y as int);
    assert(a * d - b * c == -(c * b - d * a)) by (nonlinear_arith);
}

/// Which point a ring starts from does not matter to its area.
pub proof fn lemma_area_rotated(ring: Seq<Coord>, k: int)
    requires
        0 <= k <= ring.len(),
    ensures
        doubled_area(ring.skip(k) + ring.take(k)) == doubled_area(ring),
{
    let f = |p: Coord, q: Coord| cross_product(p, q);
    let a = ring.take(k);
    let b = ring.skip(k);
    if 0 < k < ring.len() {
        assert(a + b =~= ring);
        lemma_joined(a, b, f);
        lemma_joined(b, a, f);
        lemma_round(ring, f);
        lemma_round(b + a, f);
        assert((b + a).last() == a.last() && (b + a)[0] == b[0]);
        assert(ring.last() == b.last() && ring[0] == a[0]);
    } else {
        assert(b + a =~= ring);
    }
}

/// Nor does repeating the first point at the end.
pub proof fn lemma_area_closed(ring: Seq<Coord>)
    requires
        ring.len() > 0,
    ensures
        doubled_area(ring.push(ring[0])) == doubled_area(ring),
{
    let f = |p: Coord, q: Coord| cross_product(p, q);
    let one = seq![ring[0]];
    assert(ring + one =~= ring.push(ring[0]));
    lemma_joined(ring, one, f);
    lemma_round(ring, f);
    lemma_round(ring.push(ring[0]), f);
    lemma_swapped(ring[0], ring[0]);
}

/// A rectangle from its upper left corner on, clockwise, has twice the area of its
/// cells.
pub proof fn lemma_area_rectangle(x1: i32, y1: i32, x2: i32, y2: i32)
    ensures
        doubled_area(
            seq![
                Coord { x: x1, y: y1 },
                Coord { x: x2, y: y1 },
                Coord { x: x2, y: y2 },
                Coord { x: x1, y: y2 },
            ],
        ) == 2 * ((x2 - x1) * (y2 - y1)),
{
    reveal_with_fuel(step_sum, 6);
    let (a, b, c, d) = (x1 as int, y1 as int, x2 as int, y2 as int);
    assert((a * b - b * c) + (c * d - b * c) + (c * d - d * a) + (a * b - d * a) == 2 * ((c - a) * (d
        - b))) by (nonlinear_arith);
}

/// A term of an area fits a machine word.
pub proof fn lemma_term_bound(p: Coord, q: Coord)
    ensures
        -0x4000_0000_0000_0000 <= p.x * q.y <= 0x4000_0000_0000_0000,
        -0x4000_0000_0000_0000 <= p.y * q.x <= 0x4000_0000_0000_0000,
        -0x8000_0000_0000_0000 <= cross_product(p, q) <= 0x8000_0000_0000_0000,
{
    lemma_product_bound(p.x as int, q.y as int);
    lemma_product_bound(p.y as int, q.x as int);
}

proof fn lemma_product_bound(a: int, b: int)
    by (nonlinear_arith)
    requires
        -0x8000_0000 <= a <= 0x8000_0000,
        -0x8000_0000 <= b <= 0x8000_0000,
    ensures
        -0x4000_0000_0000_0000 <= a * b <= 0x4000_0000_0000_0000,
{
}

/// The least box that holds a set of points.
#[derive(Clone, Copy, Debug, PartialEq, Eq, Structural)]
pub struct Bounds {
    pub x1: i32,
    pub y1: i32,
    pub x2: i32,
    pub y2: i32,
}

/// The points from the first to number `n` lie in the box, and each side of it
/// touches one of them. The box of no points is turned inside out.
pub open spec fn bounds_first(ring: Seq<Coord>, n: int, b: Bounds) -> bool {
    &&& forall|i: int|
        0 <= i < n ==> b.x1 <= (#[trigger] ring[i]).x <= b.x2 && b.y1 <= ring[i].y <= b.y2
    &&& n > 0 ==> {
        &&& exists|i: int| 0 <= i < n && (#[trigger] ring[i]).x == b.x1
        &&& exists|i: int| 0 <= i < n && (#[trigger] ring[i]).x == b.x2
        &&& exists|i: int| 0 <= i < n && (#[trigger] ring[i]).y == b.y1
        &&& exists|i: int| 0 <= i < n && (#[trigger] ring[i]).y == b.y2
    }
    &&& n == 0 ==> b == (Bounds { x1: i32::MAX, y1: i32::MAX, x2: i32::MIN, y2: i32::MIN })
}

pub open spec fn bounds_of(ring: Seq<Coord>, b: Bounds) -> bool {
    bounds_first(ring, ring.len() as int, b)
}

/// Returns the bounds of a ring.
pub fn bounds(ring: &LineString) -> (b: Bounds)
    ensures
        bounds_of(ring.0@, b),
{
    let mut b = Bounds { x1: i32::MAX, y1: i32::MAX, x2: i32::MIN, y2: i32::MIN };
    let mut index: usize = 0;
    while index < ring.0.len()
        invariant
            index <= ring.0@.len(),
            bounds_first(ring.0@, index as int, b),
        decreases ring.0@.len() - index,
    {
        let point = ring.0[index];
        let ghost before = b;
        if point.x < b.x1 {
            b.x1 = point.x;
        }
        if point.y < b.y1 {
            b.y1 = point.y;
        }
        if b.x2 < point.x {
            b.x2 = point.x;
        }
        if b.y2 < point.y {
            b.y2 = point.y;
        }
        proof {
            let n = index as int;
            let s = ring.0@;
            assert(s[n] == point);
            assert(exists|i: int| 0 <= i < n + 1 && (#[trigger] s[i]).x == b.x1);
            assert(exists|i: int| 0 <= i < n + 1 && (#[trigger] s[i]).x == b.x2);
            assert(exists|i: int| 0 <= i < n + 1 && (#[trigger] s[i]).y == b.y1);
            assert(exists|i: int| 0 <= i < n + 1 && (#[trigger] s[i]).y == b.y2);
        }
        index = index + 1;
    }
    b
}

/// A closed ring begins with the points of the ring and ends where it begins. One more
/// point is put behind them if and only if they do not end there already.
pub proof fn lemma_closed(ring: Seq<Coord>)
    requires
        ring.len() > 0,
    ensures
        closed(ring).take(ring.len() as int) == ring,
        closed(ring).last() == closed(ring)[0],
        ring[0] == ring.last() ==> closed(ring).len() == ring.len(),
        ring[0] != ring.last() ==> closed(ring).len() == ring.len() + 1,
{
    assert(closed(ring).take(ring.len() as int) =~= ring);
}

/// The bounds of a ring hold each of its points, and no smaller box does: each side goes
/// through a point.
pub proof fn lemma_bounds(ring: Seq<Coord>, b: Bounds)
    requires
        bounds_of(ring, b),
        ring.len() > 0,
    ensures
        forall|i: int|
            0 <= i < ring.len() ==> b.x1 <= (#[trigger] ring[i]).x <= b.x2 && b.y1 <= ring[i].y
                <= b.y2,
        exists|i: int| 0 <= i < ring.len() && (#[trigger] ring[i]).x == b.x1,
        exists|i: int| 0 <= i < ring.len() && (#[trigger] ring[i]).x == b.x2,
        exists|i: int| 0 <= i < ring.len() && (#[trigger] ring[i]).y == b.y1,
        exists|i: int| 0 <= i < ring.len() && (#[trigger] ring[i]).y == b.y2,
{
}

/// A rectangle encloses the cells from its left edge up to its right one and from its
/// upper edge up to its lower one, and no others.
pub proof fn lemma_rectangle_encloses(x1: i32, y1: i32, x2: i32, y2: i32, x: int, y: int)
    requires
        x1 < x2,
        y1 < y2,
    ensures
        encloses(
            seq![
                Coord { x: x1, y: y1 },
                Coord { x: x2, y: y1 },
                Coord { x: x2, y: y2 },
                Coord { x: x1, y: y2 },
            ],
            x,
            y,
        ) <==> x1 <= x < x2 && y1 <= y < y2,
{
    reveal_with_fuel(step_sum, 6);
}

} // verus!
