//! The points of a tile on a regular lattice, from which pixels are sampled.

use vstd::prelude::*;

use vstd::arithmetic::power2::pow2;

use crate::model::{pair_of, Point, RawPair};

verus! {

/// The side of the square that a point stands for.
pub open spec fn width_of(point: Point) -> int {
    pow2(point.power as nat) as int
}

/// The rectangle of cells that the points of a tile span, and the side of the
/// smallest of them.
pub struct Frame {
    pub step: int,
    pub x1: int,
    pub y1: int,
    pub x2: int,
    pub y2: int,
}

pub open spec fn lower(a: int, b: int) -> int {
    if a <= b {
        a
    } else {
        b
    }
}

pub open spec fn higher(a: int, b: int) -> int {
    if a <= b {
        b
    } else {
        a
    }
}

/// The frame of a tile that has a point.
pub open spec fn frame_of(points: Seq<Point>) -> Frame
    decreases points.len(),
{
    let p = points.last();
    let own = Frame {
        step: width_of(p),
        x1: p.x as int,
        y1: p.y as int,
        x2: p.x + width_of(p),
        y2: p.y + width_of(p),
    };
    if points.len() <= 1 {
        own
    } else {
        let before = frame_of(points.drop_last());
        Frame {
            step: lower(before.step, own.step),
            x1: lower(before.x1, own.x1),
            y1: lower(before.y1, own.y1),
            x2: higher(before.x2, own.x2),
            y2: higher(before.y2, own.y2),
        }
    }
}

impl Frame {
    pub open spec fn columns(self) -> int {
        (self.x2 - self.x1) / self.step + 1
    }

    pub open spec fn rows(self) -> int {
        (self.y2 - self.y1) / self.step + 1
    }

    /// The point covers the node. A point merged to a coarser level owns every
    /// node it covers.
    pub open spec fn covers(self, point: Point, row: int, column: int) -> bool {
        &&& (point.x - self.x1) / self.step <= column < (point.x + width_of(point) - self.x1)
            / self.step
        &&& (point.y - self.y1) / self.step <= row < (point.y + width_of(point) - self.y1)
            / self.step
    }

    /// The point lies in the frame.
    pub open spec fn holds(self, point: Point) -> bool {
        &&& 0 < self.step
        &&& self.x1 <= point.x && point.x + width_of(point) <= self.x2
        &&& self.y1 <= point.y && point.y + width_of(point) <= self.y2
    }
}

/// The points can be told apart in the coordinates of the grid.
pub open spec fn all_placed(points: Seq<Point>) -> bool {
    forall|i: int|
        0 <= i < points.len() ==> {
            let p = #[trigger] points[i];
            p.power < 32 && p.x + width_of(p) <= u32::MAX && p.y + width_of(p) <= u32::MAX
        }
}

/// The values at a node: those of the last point that covers it and has them
/// all.
pub open spec fn node_at(
    points: Seq<Point>,
    frame: Frame,
    bands: int,
    row: int,
    column: int,
) -> Option<RawPair>
    decreases points.len(),
{
    if points.len() == 0 {
        None
    } else {
        let p = points.last();
        if frame.covers(p, row, column) && pair_of(p.values@, bands) is Some {
            pair_of(p.values@, bands)
        } else {
            node_at(points.drop_last(), frame, bands, row, column)
        }
    }
}

/// The source grid of one tile, resampled onto a regular lattice.
///
/// The points arrive at whatever resolution the quadtree merged them to, so
/// their spacing is not uniform. Laying them on the finest lattice present
/// first means the interpolation never has to know that.
#[derive(Debug)]
pub struct SampleGrid {
    /// Lattice index of column zero, and of row zero.
    ///
    /// Held as an index rather than as a grid coordinate so that the lattice a
    /// point falls in is a property of the grid alone. Anchoring on whichever
    /// points a tile happened to read would leave two tiles computing the same
    /// position through different subtractions, and the last bit of the
    /// interpolation weight - and so the last code of the pixel - would differ
    /// across every seam.
    pub first: (i64, i64),
    /// Grid coordinates per lattice step. A power of two, so dividing a
    /// coordinate by it is exact.
    pub step: u32,
    pub columns: usize,
    pub rows: usize,
    /// Raw values per node, `None` where the grid has no data.
    pub nodes: Vec<Option<RawPair>>,
}

proof fn lemma_width(power: u8)
    requires
        power < 32,
    ensures
        1 <= pow2(power as nat) <= 0x8000_0000,
        1u32 << power == pow2(power as nat),
{
    vstd::arithmetic::power2::lemma_pow2_pos(power as nat);
    vstd::arithmetic::power2::lemma2_to64();
    if power < 31 {
        vstd::arithmetic::power2::lemma_pow2_strictly_increases(power as nat, 31);
    }
    vstd::bits::lemma_u32_shl_is_mul(1, power as u32);
}

/// The side of the square of a power.
pub fn width(power: u8) -> (side: u32)
    requires
        power < 32,
    ensures
        side == pow2(power as nat),
        1 <= side,
{
    proof {
        lemma_width(power);
    }
    1u32 << power
}

/// Every point lies in the frame of its tile.
proof fn lemma_frame_holds(points: Seq<Point>, i: int)
    requires
        all_placed(points),
        0 <= i < points.len(),
    ensures
        frame_of(points).holds(points[i]),
        0 < frame_of(points).step <= 0x8000_0000,
        0 <= frame_of(points).x1 <= frame_of(points).x2 <= u32::MAX,
        0 <= frame_of(points).y1 <= frame_of(points).y2 <= u32::MAX,
    decreases points.len(),
{
    let last = points[points.len() - 1];
    assert(last == points.last());
    lemma_width(last.power);
    if points.len() > 1 {
        let rest = points.drop_last();
        assert forall|k: int| 0 <= k < rest.len() implies {
            let p = #[trigger] rest[k];
            p.power < 32 && p.x + width_of(p) <= u32::MAX && p.y + width_of(p) <= u32::MAX
        } by {
            assert(rest[k] == points[k]);
        }
        if i < rest.len() {
            lemma_frame_holds(rest, i);
            assert(rest[i] == points[i]);
        } else {
            lemma_frame_holds(rest, 0);
        }
    }
}

proof fn lemma_cell_inside(a: int, b: int, step: int)
    by (nonlinear_arith)
    requires
        0 <= a <= b,
        0 < step,
    ensures
        0 <= a / step <= b / step,
{
}

impl SampleGrid {
    /// The lattice is the one of the points.
    pub open spec fn samples(&self, points: Seq<Point>, bands: int) -> bool {
        let frame = frame_of(points);
        &&& self.step == frame.step
        &&& self.columns == frame.columns()
        &&& self.rows == frame.rows()
        &&& self.first.0 == frame.x1 / frame.step
        &&& self.first.1 == frame.y1 / frame.step
        &&& self.nodes@.len() == self.rows * self.columns
        &&& forall|row: int, column: int|
            #![trigger self.nodes@[row * self.columns + column]]
            0 <= row < self.rows && 0 <= column < self.columns ==> self.nodes@[row * self.columns
                + column] == node_at(points, frame, bands, row, column)
    }

    pub open spec fn wf(&self) -> bool {
        self.nodes@.len() == self.rows * self.columns
    }

    /// The values at a place of the lattice. Outside of it there are none.
    pub open spec fn at(&self, column: int, row: int) -> Option<RawPair> {
        if 0 <= column < self.columns && 0 <= row < self.rows {
            self.nodes@[row * self.columns + column]
        } else {
            None
        }
    }

    /// Looks up a node by its place, which may lie outside of the lattice.
    pub fn node(&self, column: i64, row: i64) -> (values: Option<RawPair>)
        requires
            self.wf(),
        ensures
            values == self.at(column as int, row as int),
    {
        if column < 0 || row < 0 || column as u64 >= self.columns as u64 || row as u64
            >= self.rows as u64 {
            return None;
        }
        let count: usize = self.nodes.len();
        proof {
            assert(self.rows * self.columns == count);
            lemma_place(row as int, column as int, self.rows as int, self.columns as int);
            lemma_partial(row as int, column as int, self.rows as int, self.columns as int);
        }
        self.nodes[row as usize * self.columns + column as usize]
    }

    /// The four nodes around a position: those of the given row before those of
    /// the next, and in each row the given column before the next.
    pub fn corners(&self, column: i64, row: i64) -> (nodes: [Option<RawPair>; 4])
        requires
            self.wf(),
            column < i64::MAX,
            row < i64::MAX,
        ensures
            nodes@ == seq![
                self.at(column as int, row as int),
                self.at(column + 1, row as int),
                self.at(column as int, row + 1),
                self.at(column + 1, row + 1),
            ],
    {
        let nodes = [
            self.node(column, row),
            self.node(column + 1, row),
            self.node(column, row + 1),
            self.node(column + 1, row + 1),
        ];
        assert(nodes@ =~= seq![
            self.at(column as int, row as int),
            self.at(column + 1, row as int),
            self.at(column as int, row + 1),
            self.at(column + 1, row + 1),
        ]);
        nodes
    }

    pub fn build(points: &Vec<Point>, bands: usize) -> (grid: Option<SampleGrid>)
        requires
            1 <= bands <= 2,
            all_placed(points@),
            points@.len() > 0 ==> frame_of(points@).rows() * frame_of(points@).columns()
                <= usize::MAX,
        ensures
            match grid {
                Some(grid) => points@.len() > 0 && grid.samples(points@, bands as int),
                None => points@.len() == 0,
            },
    {
        if points.len() == 0 {
            return None;
        }
        let mut step: u32 = u32::MAX;
        let mut x1: u32 = u32::MAX;
        let mut y1: u32 = u32::MAX;
        let mut x2: u32 = 0;
        let mut y2: u32 = 0;
        let mut i: usize = 0;
        while i < points.len()
            invariant
                i <= points@.len(),
                all_placed(points@),
                i == 0 ==> step == u32::MAX && x1 == u32::MAX && y1 == u32::MAX && x2 == 0 && y2
                    == 0,
                i > 0 ==> frame_of(points@.take(i as int)) == (Frame {
                    step: step as int,
                    x1: x1 as int,
                    y1: y1 as int,
                    x2: x2 as int,
                    y2: y2 as int,
                }),
            decreases points@.len() - i,
        {
            let point = points[i];
            proof {
                let next = points@.take(i + 1);
                assert(next.last() == points@[i as int]);
                assert(next.drop_last() =~= points@.take(i as int));
                lemma_width(point.power);
            }
            let side: u32 = width(point.power);
            if side < step {
                step = side;
            }
            if point.x < x1 {
                x1 = point.x;
            }
            if point.y < y1 {
                y1 = point.y;
            }
            if point.x + side > x2 {
                x2 = point.x + side;
            }
            if point.y + side > y2 {
                y2 = point.y + side;
            }
            i = i + 1;
        }
        let ghost frame = frame_of(points@);
        proof {
            assert(points@.take(points@.len() as int) =~= points@);
            lemma_frame_holds(points@, 0);
            lemma_cell_inside(x2 - x1, x2 - x1, step as int);
            lemma_cell_inside(y2 - y1, y2 - y1, step as int);
            lemma_quotient(x2 - x1, step as int);
            lemma_quotient(y2 - y1, step as int);
        }
        let across: u64 = ((x2 - x1) / step) as u64 + 1;
        let down: u64 = ((y2 - y1) / step) as u64 + 1;
        proof {
            assert(across == frame.columns() && down == frame.rows());
            lemma_factors(down as int, across as int);
        }
        let columns: usize = across as usize;
        let rows: usize = down as usize;
        let count: usize = rows * columns;
        let mut nodes: Vec<Option<RawPair>> = Vec::new();
        while nodes.len() < count
            invariant
                nodes@.len() <= count,
                forall|n: int| 0 <= n < nodes@.len() ==> (#[trigger] nodes@[n]) is None,
            decreases count - nodes@.len(),
        {
            nodes.push(None);
        }
        i = 0;
        proof {
            assert(points@.take(0) =~= Seq::empty());
            assert forall|row: int, column: int|
                #![trigger nodes@[row * columns + column]]
                0 <= row < rows && 0 <= column < columns implies nodes@[row * columns + column]
                == node_at(points@.take(0), frame, bands as int, row, column) by {
                lemma_place(row, column, rows as int, columns as int);
                assert(nodes@[row * columns + column] is None);
            }
        }
        while i < points.len()
            invariant
                i <= points@.len(),
                1 <= bands <= 2,
                all_placed(points@),
                frame == frame_of(points@),
                frame == (Frame {
                    step: step as int,
                    x1: x1 as int,
                    y1: y1 as int,
                    x2: x2 as int,
                    y2: y2 as int,
                }),
                columns == frame.columns(),
                rows == frame.rows(),
                count == rows * columns,
                nodes@.len() == count,
                forall|row: int, column: int|
                    #![trigger nodes@[row * columns + column]]
                    0 <= row < rows && 0 <= column < columns ==> nodes@[row * columns + column]
                        == node_at(points@.take(i as int), frame, bands as int, row, column),
            decreases points@.len() - i,
        {
            let point = points[i];
            let ghost before = points@.take(i as int);
            let ghost next = points@.take(i + 1);
            proof {
                assert(next.last() == point);
                assert(next.drop_last() =~= before);
            }
            let first = point.values[0].get();
            let second = if bands == 2 {
                point.values[1].get()
            } else {
                Some(0)
            };
            if let (Some(first), Some(second)) = (first, second) {
                let pair = RawPair { first, second };
                assert(pair_of(point.values@, bands as int) == Some(pair));
                let side: u32 = width(point.power);
                proof {
                    lemma_frame_holds(points@, i as int);
                    lemma_cell_inside(point.y - y1, point.y + side - y1, step as int);
                    lemma_cell_inside(point.y + side - y1, y2 - y1, step as int);
                    lemma_cell_inside(point.x - x1, point.x + side - x1, step as int);
                    lemma_cell_inside(point.x + side - x1, x2 - x1, step as int);
                }
                let top: u32 = (point.y - y1) / step;
                let bottom: u32 = (point.y + side - y1) / step;
                let left: u32 = (point.x - x1) / step;
                let right: u32 = (point.x + side - x1) / step;
                fill(&mut nodes, rows, columns, top, bottom, left, right, pair);
                proof {
                    assert forall|row: int, column: int|
                        #![trigger nodes@[row * columns + column]]
                        0 <= row < rows && 0 <= column < columns implies nodes@[row * columns
                        + column] == node_at(next, frame, bands as int, row, column) by {
                        lemma_place(row, column, rows as int, columns as int);
                    }
                }
            } else {
                assert(pair_of(point.values@, bands as int) is None);
            }
            i = i + 1;
        }
        assert(points@.take(points@.len() as int) =~= points@);
        Some(
            SampleGrid {
                first: ((x1 / step) as i64, (y1 / step) as i64),
                step,
                columns,
                rows,
                nodes,
            },
        )
    }
}

proof fn lemma_quotient(a: int, step: int)
    by (nonlinear_arith)
    requires
        0 <= a <= u32::MAX,
        0 < step,
    ensures
        0 <= a / step <= u32::MAX,
{
}

proof fn lemma_factors(a: int, b: int)
    by (nonlinear_arith)
    requires
        1 <= a,
        1 <= b,
    ensures
        a <= a * b,
        b <= a * b,
{
}

/// A node has a place of its own.
proof fn lemma_place(row: int, column: int, rows: int, columns: int)
    by (nonlinear_arith)
    requires
        0 <= row < rows,
        0 <= column < columns,
    ensures
        0 <= row * columns + column < rows * columns,
        (row * columns + column) / columns == row,
        (row * columns + column) % columns == column,
{
    assert(row * columns + columns <= rows * columns);
    assert((row * columns + column) / columns == row && (row * columns + column) % columns
        == column);
}

/// Writes a value into a rectangle of the lattice.
fn fill(
    nodes: &mut Vec<Option<RawPair>>,
    rows: usize,
    columns: usize,
    top: u32,
    bottom: u32,
    left: u32,
    right: u32,
    pair: RawPair,
)
    requires
        old(nodes)@.len() == rows * columns,
        top <= bottom <= rows,
        left <= right <= columns,
    ensures
        final(nodes)@.len() == old(nodes)@.len(),
        forall|row: int, column: int|
            #![trigger final(nodes)@[row * columns + column]]
            0 <= row < rows && 0 <= column < columns ==> final(nodes)@[row * columns + column]
                == if top <= row < bottom && left <= column < right {
                Some(pair)
            } else {
                old(nodes)@[row * columns + column]
            },
{
    let ghost given = nodes@;
    let count: usize = nodes.len();
    let mut row: u32 = top;
    while row < bottom
        invariant
            top <= row <= bottom <= rows,
            left <= right <= columns,
            count == rows * columns,
            nodes@.len() == count,
            given.len() == count,
            forall|r: int, c: int|
                #![trigger nodes@[r * columns + c]]
                0 <= r < rows && 0 <= c < columns ==> nodes@[r * columns + c] == if top <= r < row
                    && left <= c < right {
                    Some(pair)
                } else {
                    given[r * columns + c]
                },
        decreases bottom - row,
    {
        let ghost start = nodes@;
        let mut column: u32 = left;
        while column < right
            invariant
                top <= row < bottom <= rows,
                left <= column <= right <= columns,
                count == rows * columns,
                nodes@.len() == count,
                start.len() == count,
                forall|r: int, c: int|
                    #![trigger nodes@[r * columns + c]]
                    0 <= r < rows && 0 <= c < columns ==> nodes@[r * columns + c] == if r == row
                        && left <= c < column {
                        Some(pair)
                    } else {
                        start[r * columns + c]
                    },
            decreases right - column,
        {
            proof {
                lemma_place(row as int, column as int, rows as int, columns as int);
                lemma_partial(row as int, column as int, rows as int, columns as int);
            }
            let ghost before = nodes@;
            let index: usize = row as usize * columns + column as usize;
            nodes.set(index, Some(pair));
            proof {
                assert forall|r: int, c: int|
                    #![trigger nodes@[r * columns + c]]
                    0 <= r < rows && 0 <= c < columns implies nodes@[r * columns + c] == if r
                    == row && left <= c < column + 1 {
                    Some(pair)
                } else {
                    start[r * columns + c]
                } by {
                    lemma_place(r, c, rows as int, columns as int);
                    assert(before[r * columns + c] == if r == row && left <= c < column {
                        Some(pair)
                    } else {
                        start[r * columns + c]
                    });
                }
            }
            column = column + 1;
        }
        proof {
            assert forall|r: int, c: int|
                #![trigger nodes@[r * columns + c]]
                0 <= r < rows && 0 <= c < columns implies nodes@[r * columns + c] == if top <= r
                < row + 1 && left <= c < right {
                Some(pair)
            } else {
                given[r * columns + c]
            } by {
                assert(start[r * columns + c] == if top <= r < row && left <= c < right {
                    Some(pair)
                } else {
                    given[r * columns + c]
                });
            }
        }
        row = row + 1;
    }
}

proof fn lemma_partial(row: int, column: int, rows: int, columns: int)
    by (nonlinear_arith)
    requires
        0 <= row < rows,
        0 <= column < columns,
    ensures
        0 <= row * columns <= rows * columns,
{
}

/// The points sit on cell boundaries of their own size.
pub open spec fn all_aligned(points: Seq<Point>) -> bool {
    forall|i: int|
        0 <= i < points.len() ==> (#[trigger] points[i]).x as int % width_of(points[i]) == 0
            && points[i].y as int % width_of(points[i]) == 0
}

/// The values at a place of the grid: those of the last point over it that has
/// them all.
pub open spec fn value_over(points: Seq<Point>, bands: int, x: int, y: int) -> Option<RawPair>
    decreases points.len(),
{
    if points.len() == 0 {
        None
    } else {
        let p = points.last();
        let over = p.x <= x < p.x + width_of(p) && p.y <= y < p.y + width_of(p);
        if over && pair_of(p.values@, bands) is Some {
            pair_of(p.values@, bands)
        } else {
            value_over(points.drop_last(), bands, x, y)
        }
    }
}

/// A smaller power of two divides a larger one.
proof fn lemma_widths_divide(a: Point, b: Point)
    requires
        width_of(a) <= width_of(b),
    ensures
        width_of(b) % width_of(a) == 0,
{
    let (m, n) = (a.power as nat, b.power as nat);
    vstd::arithmetic::power2::lemma_pow2_pos(m);
    if m > n {
        vstd::arithmetic::power2::lemma_pow2_strictly_increases(n, m);
    } else {
        vstd::arithmetic::power2::lemma_pow2_adds(m, (n - m) as nat);
        let (p, q) = (pow2(m) as int, pow2((n - m) as nat) as int);
        assert((p * q) % p == 0) by (nonlinear_arith)
            requires
                p > 0,
        ;
    }
}

/// The finest step is the side of one of the points, and so are the edges of the
/// frame places of points.
proof fn lemma_frame_witness(points: Seq<Point>) -> (w: (int, int, int))
    requires
        points.len() > 0,
    ensures
        0 <= w.0 < points.len(),
        0 <= w.1 < points.len(),
        0 <= w.2 < points.len(),
        frame_of(points).step == width_of(points[w.0]),
        frame_of(points).x1 == points[w.1].x,
        frame_of(points).y1 == points[w.2].y,
        forall|i: int|
            0 <= i < points.len() ==> frame_of(points).step <= width_of(#[trigger] points[i]),
    decreases points.len(),
{
    let n = points.len() - 1;
    let last = points[n];
    if n == 0 {
        (0, 0, 0)
    } else {
        let rest = points.drop_last();
        let w = lemma_frame_witness(rest);
        let before = frame_of(rest);
        assert forall|i: int| 0 <= i < points.len() implies frame_of(points).step <= width_of(
            #[trigger] points[i],
        ) by {
            if i < n {
                assert(rest[i] == points[i]);
            }
        }
        assert(rest[w.0] == points[w.0] && rest[w.1] == points[w.1] && rest[w.2] == points[w.2]);
        (
            if before.step <= width_of(last) {
                w.0
            } else {
                n
            },
            if before.x1 <= last.x {
                w.1
            } else {
                n
            },
            if before.y1 <= last.y {
                w.2
            } else {
                n
            },
        )
    }
}

/// Along one axis: which nodes lie between two multiples of the step.
proof fn lemma_between(start: int, side: int, origin: int, step: int, node: int)
    requires
        0 < step,
        0 <= origin <= start,
        0 < side,
        start % step == 0,
        side % step == 0,
        origin % step == 0,
    ensures
        ((start - origin) / step <= node < (start + side - origin) / step) <==> (start <= (origin
            / step + node) * step < start + side),
{
    let (a, b, c) = (start / step, side / step, origin / step);
    assert(start == a * step && side == b * step && origin == c * step) by (nonlinear_arith)
        requires
            0 < step,
            start % step == 0,
            side % step == 0,
            origin % step == 0,
            a == start / step,
            b == side / step,
            c == origin / step,
    ;
    assert((a * step - c * step) / step == a - c) by (nonlinear_arith)
        requires
            0 < step,
    ;
    assert((a * step + b * step - c * step) / step == a + b - c) by (nonlinear_arith)
        requires
            0 < step,
    ;
    let m = c + node;
    assert((a * step <= m * step < a * step + b * step) <==> (a <= m < a + b)) by (nonlinear_arith)
        requires
            0 < step,
    ;
}

proof fn lemma_divides(x: int, w: int, step: int)
    requires
        0 < step,
        0 < w,
        w % step == 0,
        x % w == 0,
    ensures
        x % step == 0,
{
    let q = x / w;
    let r = w / step;
    assert(x == q * r * step) by (nonlinear_arith)
        requires
            0 < step,
            0 < w,
            w % step == 0,
            x % w == 0,
            q == x / w,
            r == w / step,
    ;
    vstd::arithmetic::div_mod::lemma_mod_multiples_basic(q * r, step);
}

/// The lattice is anchored in the grid: a node has the values at its own place of
/// the grid, whichever other points the tile holds. Neighbouring tiles that share
/// points and a step so agree wherever both have a node.
pub proof fn lemma_anchored(points: Seq<Point>, bands: int, row: int, column: int)
    requires
        points.len() > 0,
        all_placed(points),
        all_aligned(points),
    ensures
        ({
            let frame = frame_of(points);
            node_at(points, frame, bands, row, column) == value_over(
                points,
                bands,
                (frame.x1 / frame.step + column) * frame.step,
                (frame.y1 / frame.step + row) * frame.step,
            )
        }),
{
    assert(points =~= points.take(points.len() as int));
    lemma_anchored_in(points, points, bands, row, column);
}

proof fn lemma_anchored_in(all: Seq<Point>, points: Seq<Point>, bands: int, row: int, column: int)
    requires
        all.len() > 0,
        all_placed(all),
        all_aligned(all),
        points.len() <= all.len(),
        points == all.take(points.len() as int),
    ensures
        ({
            let frame = frame_of(all);
            node_at(points, frame, bands, row, column) == value_over(
                points,
                bands,
                (frame.x1 / frame.step + column) * frame.step,
                (frame.y1 / frame.step + row) * frame.step,
            )
        }),
    decreases points.len(),
{
    if points.len() > 0 {
        let n = points.len() - 1;
        let rest = points.drop_last();
        assert(rest =~= all.take(n));
        lemma_anchored_in(all, rest, bands, row, column);
        let frame = frame_of(all);
        let p = points.last();
        assert(p == all[n]);
        lemma_frame_holds(all, n);
        let (s, h, v) = lemma_frame_witness(all);
        lemma_width(p.power);
        lemma_width(all[s].power);
        lemma_width(all[h].power);
        lemma_width(all[v].power);
        lemma_widths_divide(all[s], p);
        lemma_widths_divide(all[s], all[h]);
        lemma_widths_divide(all[s], all[v]);
        lemma_divides(p.x as int, width_of(p), frame.step);
        lemma_divides(p.y as int, width_of(p), frame.step);
        lemma_divides(frame.x1, width_of(all[h]), frame.step);
        lemma_divides(frame.y1, width_of(all[v]), frame.step);
        lemma_between(p.x as int, width_of(p), frame.x1, frame.step, column);
        lemma_between(p.y as int, width_of(p), frame.y1, frame.step, row);
    }
}

/// The frame of a tile. Its step is the side of the smallest point; its edges are the
/// least left and upper edge and the greatest right and lower edge of the points, each of
/// which is a square of two to its power.
pub proof fn lemma_frame(points: Seq<Point>)
    requires
        points.len() > 0,
    ensures
        ({
            let frame = frame_of(points);
            &&& forall|i: int|
                0 <= i < points.len() ==> {
                    let p = #[trigger] points[i];
                    let side = pow2(p.power as nat) as int;
                    &&& frame.step <= side
                    &&& frame.x1 <= p.x && p.x + side <= frame.x2
                    &&& frame.y1 <= p.y && p.y + side <= frame.y2
                }
            &&& exists|i: int|
                0 <= i < points.len() && frame.step == pow2((#[trigger] points[i]).power as nat)
            &&& exists|i: int| 0 <= i < points.len() && frame.x1 == (#[trigger] points[i]).x
            &&& exists|i: int| 0 <= i < points.len() && frame.y1 == (#[trigger] points[i]).y
            &&& exists|i: int|
                0 <= i < points.len() && frame.x2 == (#[trigger] points[i]).x + pow2(
                    points[i].power as nat,
                )
            &&& exists|i: int|
                0 <= i < points.len() && frame.y2 == (#[trigger] points[i]).y + pow2(
                    points[i].power as nat,
                )
        }),
    decreases points.len(),
{
    let n = points.len() - 1;
    let last = points[n];
    assert(last == points.last());
    if n > 0 {
        let rest = points.drop_last();
        lemma_frame(rest);
        let before = frame_of(rest);
        assert forall|i: int| 0 <= i < n implies (#[trigger] points[i]) == rest[i] by {
        }
        let a = choose|i: int|
            0 <= i < rest.len() && before.step == pow2((#[trigger] rest[i]).power as nat);
        let b = choose|i: int| 0 <= i < rest.len() && before.x1 == (#[trigger] rest[i]).x;
        let c = choose|i: int| 0 <= i < rest.len() && before.y1 == (#[trigger] rest[i]).y;
        let d = choose|i: int|
            0 <= i < rest.len() && before.x2 == (#[trigger] rest[i]).x + pow2(
                rest[i].power as nat,
            );
        let e = choose|i: int|
            0 <= i < rest.len() && before.y2 == (#[trigger] rest[i]).y + pow2(
                rest[i].power as nat,
            );
        assert(points[a] == rest[a] && points[b] == rest[b] && points[c] == rest[c] && points[d]
            == rest[d] && points[e] == rest[e]);
    }
}

/// The values at a node are those of the last of the points over it that has all the
/// values that are read, and none if and only if there is no such point. A point lies
/// over the nodes from its own left and upper edge on, up to its right and lower edge,
/// counted in steps from the corner of the frame.
pub proof fn lemma_node(points: Seq<Point>, frame: Frame, bands: int, row: int, column: int)
    ensures
        match node_at(points, frame, bands, row, column) {
            Some(pair) => exists|i: int|
                0 <= i < points.len() && lies_over(#[trigger] points[i], frame, row, column)
                    && pair_of(points[i].values@, bands) == Some(pair) && forall|later: int|
                    i < later < points.len() ==> !(lies_over(
                        #[trigger] points[later],
                        frame,
                        row,
                        column,
                    ) && pair_of(points[later].values@, bands) is Some),
            None => forall|i: int|
                0 <= i < points.len() ==> !(lies_over(#[trigger] points[i], frame, row, column)
                    && pair_of(points[i].values@, bands) is Some),
        },
    decreases points.len(),
{
    if points.len() > 0 {
        let n = points.len() - 1;
        let rest = points.drop_last();
        let last = points[n];
        lemma_node(rest, frame, bands, row, column);
        assert forall|i: int| 0 <= i < n implies (#[trigger] points[i]) == rest[i] by {
        }
        if frame.covers(last, row, column) && pair_of(last.values@, bands) is Some {
            assert(lies_over(points[n], frame, row, column));
        } else if node_at(rest, frame, bands, row, column) is Some {
            let pair = node_at(rest, frame, bands, row, column)->0;
            let i = choose|i: int|
                0 <= i < rest.len() && lies_over(#[trigger] rest[i], frame, row, column)
                    && pair_of(rest[i].values@, bands) == Some(pair) && forall|later: int|
                    i < later < rest.len() ==> !(lies_over(
                        #[trigger] rest[later],
                        frame,
                        row,
                        column,
                    ) && pair_of(rest[later].values@, bands) is Some);
            assert(points[i] == rest[i]);
        }
    }
}

/// The square of a point covers a node of the frame.
pub open spec fn lies_over(point: Point, frame: Frame, row: int, column: int) -> bool {
    let side = pow2(point.power as nat) as int;
    &&& (point.x - frame.x1) / frame.step <= column
    &&& column < (point.x + side - frame.x1) / frame.step
    &&& (point.y - frame.y1) / frame.step <= row
    &&& row < (point.y + side - frame.y1) / frame.step
}

/// What a lattice is: a node at every step from edge to edge of the frame, its first
/// counted in steps from the corner of the grid, and the nodes row by row. A place
/// outside of it has no values.
pub proof fn lemma_lattice(grid: SampleGrid, points: Seq<Point>, bands: int, row: int, column: int)
    requires
        grid.samples(points, bands),
    ensures
        ({
            let frame = frame_of(points);
            &&& grid.step == frame.step
            &&& grid.columns == (frame.x2 - frame.x1) / frame.step + 1
            &&& grid.rows == (frame.y2 - frame.y1) / frame.step + 1
            &&& grid.first == (
                (frame.x1 / frame.step) as i64,
                (frame.y1 / frame.step) as i64,
            )
            &&& grid.nodes@.len() == grid.rows * grid.columns
            &&& 0 <= row < grid.rows && 0 <= column < grid.columns ==> grid.at(column, row)
                == grid.nodes@[row * grid.columns + column] && grid.at(column, row) == node_at(
                points,
                frame,
                bands,
                row,
                column,
            )
            &&& !(0 <= row < grid.rows && 0 <= column < grid.columns) ==> grid.at(column, row)
                is None
        }),
{
}

} // verus!
