//! Putting the points of a product into the tiles of its base zoom.

use vstd::prelude::*;

use vstd::arithmetic::power2::{lemma2_to64, lemma_pow2_strictly_increases, pow2};

use crate::conversion::{DOUBLE_MAX, DOUBLE_MIN};
use crate::double::{greater, is_nan, lesser, max, min, order_key};
use crate::grouping::TilePoint;
use crate::hilbert::{hilbert, hilbert_number};
use crate::lattice::width;
use crate::model::{
    Band, BandSpec, BaseTile, CompactOptI32, GpvProductIdentifier, LngLatGrid, PreparedProduct,
    ProductData, Quantization, TilesetSpec,
};

verus! {

/// The columns and rows of tiles that a point and its margin reach into. Columns
/// count on past either edge of the world.
#[derive(Clone, Copy, Debug)]
pub struct TileSpan {
    pub x1: i32,
    pub x2: i32,
    pub y1: i32,
    pub y2: i32,
}

/// Where a point lies: its edges in degrees, and the tiles it reaches into where
/// it is on the map at all.
#[derive(Clone, Copy, Debug)]
pub struct Footprint {
    pub west: u64,
    pub east: u64,
    pub south: u64,
    pub north: u64,
    pub tiles: Option<TileSpan>,
}

/// How many of the columns from `x1` to `x2` fall on a column of the world.
pub open spec fn columns_hit(x1: int, x2: int, side: int, column: int) -> nat
    decreases x2 - x1 + 1,
{
    if x2 < x1 {
        0
    } else {
        columns_hit(x1, x2 - 1, side, column) + if x2 % side == column {
            1nat
        } else {
            0nat
        }
    }
}

/// How often a point falls into a tile.
pub open spec fn hits(footprint: Footprint, side: int, x: int, y: int) -> nat {
    match footprint.tiles {
        Some(span) => if span.y1 <= y <= span.y2 {
            columns_hit(span.x1 as int, span.x2 as int, side, x)
        } else {
            0
        },
        None => 0,
    }
}

/// Which of the first `n` points fall into a tile, in their order.
pub open spec fn members_of(footprints: Seq<Footprint>, n: int, side: int, x: int, y: int) -> Seq<
    int,
>
    decreases n,
{
    if n <= 0 {
        Seq::empty()
    } else {
        members_of(footprints, n - 1, side, x, y) + Seq::new(
            hits(footprints[n - 1], side, x, y),
            |i: int| n - 1,
        )
    }
}

/// A point that does not reach around the world falls into a tile once at most.
pub proof fn lemma_hit_once(footprint: Footprint, side: int, x: int, y: int)
    requires
        side > 0,
        footprint.tiles matches Some(span) ==> span.x2 - span.x1 < side,
    ensures
        hits(footprint, side, x, y) <= 1,
{
    if let Some(span) = footprint.tiles {
        lemma_columns_once(span.x1 as int, span.x2 as int, side, x);
    }
}

proof fn lemma_columns_once(x1: int, x2: int, side: int, column: int)
    requires
        side > 0,
        x2 - x1 < side,
    ensures
        columns_hit(x1, x2, side, column) <= 1,
        columns_hit(x1, x2, side, column) == 1 ==> exists|x: int|
            x1 <= x <= x2 && #[trigger] (x % side) == column,
    decreases x2 - x1 + 1,
{
    if x2 >= x1 {
        lemma_columns_once(x1, x2 - 1, side, column);
        if x2 % side == column && columns_hit(x1, x2 - 1, side, column) == 1 {
            let x = choose|x: int| x1 <= x <= x2 - 1 && #[trigger] (x % side) == column;
            assert(false) by (nonlinear_arith)
                requires
                    side > 0,
                    x % side == x2 % side,
                    0 < x2 - x < side,
            ;
        }
    }
}

/// The points that a tile holds so far.
struct TileBin {
    number: u64,
    x: u32,
    y: u32,
    members: Vec<usize>,
}

spec fn places(members: Seq<usize>) -> Seq<int> {
    members.map_values(|m: usize| m as int)
}

/// Some bin is that of the tile.
spec fn has_bin(bins: Seq<TileBin>, x: int, y: int) -> bool {
    exists|b: int| 0 <= b < bins.len() && (#[trigger] bins[b]).x == x && bins[b].y == y
}

/// The bins stand in the order of their numbers and hold the points of their
/// tiles, and there is one for every tile that has any.
spec fn are_bins(bins: Seq<TileBin>, held: spec_fn(int, int) -> Seq<int>, base_z: u8) -> bool {
    let side = pow2(base_z as nat) as int;
    &&& forall|i: int, j: int|
        #![trigger bins[i], bins[j]]
        0 <= i < j < bins.len() ==> bins[i].number < bins[j].number
    &&& forall|b: int|
        0 <= b < bins.len() ==> {
            let bin = #[trigger] bins[b];
            &&& bin.x < side && bin.y < side
            &&& bin.number == hilbert_number(bin.x, bin.y, base_z)
            &&& bin.members@.len() > 0
            &&& places(bin.members@) == held(bin.x as int, bin.y as int)
        }
    &&& forall|x: int, y: int|
        0 <= x < side && 0 <= y < side && (#[trigger] held(x, y)).len() > 0 ==> has_bin(bins, x, y)
}

/// One tile holds one more point.
spec fn bumped(held: spec_fn(int, int) -> Seq<int>, x: int, y: int, point: int) -> spec_fn(
    int,
    int,
) -> Seq<int> {
    |a: int, b: int|
        if a == x && b == y {
            held(a, b).push(point)
        } else {
            held(a, b)
        }
}

/// What bins hold is a matter of the tiles of the world.
proof fn lemma_same_bins(
    bins: Seq<TileBin>,
    f: spec_fn(int, int) -> Seq<int>,
    g: spec_fn(int, int) -> Seq<int>,
    base_z: u8,
)
    requires
        are_bins(bins, f, base_z),
        forall|x: int, y: int|
            0 <= x < pow2(base_z as nat) && 0 <= y < pow2(base_z as nat) ==> #[trigger] f(x, y)
                == g(x, y),
    ensures
        are_bins(bins, g, base_z),
{
    let side = pow2(base_z as nat) as int;
    assert forall|b: int| 0 <= b < bins.len() implies {
        let bin = #[trigger] bins[b];
        &&& bin.x < side && bin.y < side
        &&& bin.number == hilbert_number(bin.x, bin.y, base_z)
        &&& bin.members@.len() > 0
        &&& places(bin.members@) == g(bin.x as int, bin.y as int)
    } by {
        assert(f(bins[b].x as int, bins[b].y as int) == g(bins[b].x as int, bins[b].y as int));
    }
    assert forall|x: int, y: int|
        0 <= x < side && 0 <= y < side && (#[trigger] g(x, y)).len() > 0 implies has_bin(
        bins,
        x,
        y,
    ) by {
        assert(f(x, y) == g(x, y));
    }
}

fn find_bin(bins: &Vec<TileBin>, number: u64) -> (place: usize)
    requires
        forall|i: int, j: int|
            #![trigger bins@[i], bins@[j]]
            0 <= i < j < bins@.len() ==> bins@[i].number < bins@[j].number,
    ensures
        place <= bins@.len(),
        forall|k: int| 0 <= k < place ==> (#[trigger] bins@[k]).number < number,
        forall|k: int| place <= k < bins@.len() ==> number <= (#[trigger] bins@[k]).number,
{
    let mut low: usize = 0;
    let mut high: usize = bins.len();
    while low < high
        invariant
            low <= high <= bins@.len(),
            forall|i: int, j: int|
                #![trigger bins@[i], bins@[j]]
                0 <= i < j < bins@.len() ==> bins@[i].number < bins@[j].number,
            forall|k: int| 0 <= k < low ==> (#[trigger] bins@[k]).number < number,
            forall|k: int| high <= k < bins@.len() ==> number <= (#[trigger] bins@[k]).number,
        decreases high - low,
    {
        let middle: usize = low + (high - low) / 2;
        let found: u64 = bins[middle].number;
        if found < number {
            proof {
                assert forall|k: int| 0 <= k < middle + 1 implies (#[trigger] bins@[k]).number
                    < number by {
                    if k < middle {
                        assert(bins@[k].number < bins@[middle as int].number);
                    }
                }
            }
            low = middle + 1;
        } else {
            proof {
                assert forall|k: int| middle <= k < bins@.len() implies number <= (
                #[trigger] bins@[k]).number by {
                    if k > middle {
                        assert(bins@[middle as int].number < bins@[k].number);
                    }
                }
            }
            high = middle;
        }
    }
    low
}

/// A point joins a bin that is there.
proof fn lemma_bin_extended(
    given: Seq<TileBin>,
    now: Seq<TileBin>,
    held: spec_fn(int, int) -> Seq<int>,
    base_z: u8,
    place: int,
    point: usize,
)
    requires
        are_bins(given, held, base_z),
        0 <= place < given.len(),
        now.len() == given.len(),
        forall|k: int| 0 <= k < now.len() && k != place ==> #[trigger] now[k] == given[k],
        now[place].number == given[place].number,
        now[place].x == given[place].x,
        now[place].y == given[place].y,
        now[place].members@ == given[place].members@.push(point),
    ensures
        are_bins(
            now,
            bumped(held, given[place].x as int, given[place].y as int, point as int),
            base_z,
        ),
{
    let x = given[place].x as int;
    let y = given[place].y as int;
    let after = bumped(held, x, y, point as int);
    let side = pow2(base_z as nat) as int;
    assert forall|i: int, j: int|
        #![trigger now[i], now[j]]
        0 <= i < j < now.len() implies now[i].number < now[j].number by {
        assert(given[i].number < given[j].number);
    }
    assert forall|b: int| 0 <= b < now.len() implies {
        let bin = #[trigger] now[b];
        &&& bin.x < side && bin.y < side
        &&& bin.number == hilbert_number(bin.x, bin.y, base_z)
        &&& bin.members@.len() > 0
        &&& places(bin.members@) == after(bin.x as int, bin.y as int)
    } by {
        if b == place {
            assert(places(now[place].members@) =~= places(given[place].members@).push(
                point as int,
            ));
        } else {
            if b < place {
                assert(given[b].number < given[place].number);
            } else {
                assert(given[place].number < given[b].number);
            }
            assert(!(given[b].x == x && given[b].y == y));
        }
    }
    assert forall|a: int, b: int|
        0 <= a < side && 0 <= b < side && (#[trigger] after(a, b)).len() > 0 implies has_bin(
        now,
        a,
        b,
    ) by {
        if a == x && b == y {
            assert(now[place].x == a && now[place].y == b);
        } else {
            assert(held(a, b).len() > 0);
            assert(has_bin(given, a, b));
            let k = choose|k: int|
                0 <= k < given.len() && (#[trigger] given[k]).x == a && given[k].y == b;
            assert(now[k].x == a && now[k].y == b);
        }
    }
}

/// A point starts a bin.
proof fn lemma_bin_inserted(
    given: Seq<TileBin>,
    new: TileBin,
    held: spec_fn(int, int) -> Seq<int>,
    base_z: u8,
    place: int,
    point: usize,
)
    requires
        are_bins(given, held, base_z),
        0 <= place <= given.len(),
        forall|k: int| 0 <= k < place ==> (#[trigger] given[k]).number < new.number,
        forall|k: int| place <= k < given.len() ==> new.number < (#[trigger] given[k]).number,
        new.x < pow2(base_z as nat),
        new.y < pow2(base_z as nat),
        new.number == hilbert_number(new.x, new.y, base_z),
        new.members@ == seq![point],
    ensures
        are_bins(
            given.insert(place, new),
            bumped(held, new.x as int, new.y as int, point as int),
            base_z,
        ),
{
    let now = given.insert(place, new);
    let x = new.x as int;
    let y = new.y as int;
    let after = bumped(held, x, y, point as int);
    let side = pow2(base_z as nat) as int;
    assert(!has_bin(given, x, y)) by {
        if has_bin(given, x, y) {
            let k = choose|k: int|
                0 <= k < given.len() && (#[trigger] given[k]).x == x && given[k].y == y;
            assert(given[k].number == new.number);
        }
    }
    assert(held(x, y).len() == 0);
    assert(held(x, y) =~= Seq::empty());
    assert(places(new.members@) =~= held(x, y).push(point as int));
    assert forall|i: int, j: int|
        #![trigger now[i], now[j]]
        0 <= i < j < now.len() implies now[i].number < now[j].number by {
        if i == place {
            assert(now[j] == given[j - 1]);
        } else if j == place {
            assert(now[i] == given[i]);
        } else {
            let p = if i < place {
                i
            } else {
                i - 1
            };
            let q = if j < place {
                j
            } else {
                j - 1
            };
            assert(now[i] == given[p] && now[j] == given[q]);
            assert(given[p].number < given[q].number);
        }
    }
    assert forall|b: int| 0 <= b < now.len() implies {
        let bin = #[trigger] now[b];
        &&& bin.x < side && bin.y < side
        &&& bin.number == hilbert_number(bin.x, bin.y, base_z)
        &&& bin.members@.len() > 0
        &&& places(bin.members@) == after(bin.x as int, bin.y as int)
    } by {
        if b != place {
            let p = if b < place {
                b
            } else {
                b - 1
            };
            assert(now[b] == given[p]);
            assert(!(given[p].x == x && given[p].y == y));
        }
    }
    assert forall|a: int, b: int|
        0 <= a < side && 0 <= b < side && (#[trigger] after(a, b)).len() > 0 implies has_bin(
        now,
        a,
        b,
    ) by {
        if a == x && b == y {
            assert(now[place].x == a && now[place].y == b);
        } else {
            assert(held(a, b).len() > 0);
            assert(has_bin(given, a, b));
            let k = choose|k: int|
                0 <= k < given.len() && (#[trigger] given[k]).x == a && given[k].y == b;
            if k < place {
                assert(now[k] == given[k]);
            } else {
                assert(now[k + 1] == given[k]);
            }
        }
    }
}

fn add_member(
    bins: &mut Vec<TileBin>,
    x: u32,
    y: u32,
    base_z: u8,
    point: usize,
    Ghost(held): Ghost<spec_fn(int, int) -> Seq<int>>,
)
    requires
        base_z <= 30,
        x < pow2(base_z as nat),
        y < pow2(base_z as nat),
        are_bins(old(bins)@, held, base_z),
    ensures
        are_bins(final(bins)@, bumped(held, x as int, y as int, point as int), base_z),
{
    let ghost given = bins@;
    let number: u64 = hilbert(x, y, base_z);
    let place: usize = find_bin(bins, number);
    let there = if place < bins.len() {
        bins[place].number == number
    } else {
        false
    };
    if there {
        proof {
            let bin = given[place as int];
            assert(hilbert_number(bin.x, bin.y, base_z) == number);
            assert(bin.x == x && bin.y == y);
        }
        bins[place].members.push(point);
        proof {
            lemma_bin_extended(given, bins@, held, base_z, place as int, point);
        }
    } else {
        let mut members: Vec<usize> = Vec::new();
        members.push(point);
        let bin = TileBin { number, x, y, members };
        proof {
            assert(members@ =~= seq![point]);
            lemma_bin_inserted(given, bin, held, base_z, place as int, point);
        }
        bins.insert(place, bin);
        proof {
            assert(bins@ =~= given.insert(place as int, bin));
        }
    }
}

/// The column of the world that a column falls on.
fn wrap(x: i64, side: i64) -> (column: u32)
    requires
        0 < side <= 0x4000_0000,
        -0x8000_0000 <= x <= 0x7fff_ffff,
    ensures
        column == x as int % side as int,
{
    if x >= 0 {
        (x % side) as u32
    } else {
        let back: i64 = (-(x + 1)) % side;
        proof {
            lemma_wrap(x as int, side as int);
        }
        (side - 1 - back) as u32
    }
}

proof fn lemma_wrap(x: int, side: int)
    by (nonlinear_arith)
    requires
        side > 0,
        x < 0,
    ensures
        x % side == side - 1 - (-(x + 1)) % side,
{
    let q = (-(x + 1)) / side;
    let m = (-(x + 1)) % side;
    assert(-(x + 1) == q * side + m);
    assert(x == (-q - 1) * side + (side - 1 - m));
    assert(0 <= side - 1 - m < side);
}

/// How often the point has fallen into a tile when the walk stands at a column
/// and a row.
spec fn hits_so_far(x1: int, x: int, low: int, high: int, y: int, side: int, a: int, b: int) -> nat {
    if low <= b <= high {
        columns_hit(x1, x - 1, side, a) + if x % side == a && b < y {
            1nat
        } else {
            0nat
        }
    } else {
        0
    }
}

spec fn extended(
    held: spec_fn(int, int) -> Seq<int>,
    x1: int,
    x: int,
    low: int,
    high: int,
    y: int,
    side: int,
    point: int,
    a: int,
    b: int,
) -> Seq<int> {
    held(a, b) + Seq::new(hits_so_far(x1, x, low, high, y, side, a, b), |i: int| point)
}

proof fn lemma_repeated(n: nat, point: int)
    ensures
        Seq::new(n, |i: int| point).push(point) == Seq::new(n + 1, |i: int| point),
{
    assert(Seq::new(n, |i: int| point).push(point) =~= Seq::new(n + 1, |i: int| point));
}

/// Adds a point to all the tiles that it reaches into.
fn add_point(
    bins: &mut Vec<TileBin>,
    span: TileSpan,
    base_z: u8,
    point: usize,
    Ghost(held): Ghost<spec_fn(int, int) -> Seq<int>>,
    Ghost(after): Ghost<spec_fn(int, int) -> Seq<int>>,
)
    requires
        base_z <= 30,
        are_bins(old(bins)@, held, base_z),
        forall|a: int, b: int|
            0 <= a < pow2(base_z as nat) && 0 <= b < pow2(base_z as nat) ==> #[trigger] after(a, b)
                == held(a, b) + Seq::new(
                if span.y1 <= b <= span.y2 {
                    columns_hit(span.x1 as int, span.x2 as int, pow2(base_z as nat) as int, a)
                } else {
                    0nat
                },
                |i: int| point as int,
            ),
    ensures
        are_bins(final(bins)@, after, base_z),
{
    let side: i64 = width(base_z) as i64;
    proof {
        lemma2_to64();
        if base_z < 30 {
            lemma_pow2_strictly_increases(base_z as nat, 30);
        }
    }
    let low: i64 = if span.y1 > 0 {
        span.y1 as i64
    } else {
        0
    };
    let high: i64 = if (span.y2 as i64) < side {
        span.y2 as i64
    } else {
        side - 1
    };
    let ghost s = side as int;
    let ghost x1 = span.x1 as int;
    let ghost p = point as int;
    let ghost mut now = held;
    let mut x: i64 = span.x1 as i64;
    let last: i64 = span.x2 as i64;
    proof {
        assert forall|a: int, b: int| 0 <= a < s && 0 <= b < s implies #[trigger] now(a, b)
            == extended(held, x1, x as int, low as int, high as int, low as int, s, p, a, b) by {
            assert(now(a, b) =~= extended(
                held,
                x1,
                x as int,
                low as int,
                high as int,
                low as int,
                s,
                p,
                a,
                b,
            ));
        }
    }
    while x <= last
        invariant
            base_z <= 30,
            0 < side <= 0x4000_0000,
            s == side,
            s == pow2(base_z as nat),
            p == point,
            x1 == span.x1,
            span.x1 <= x <= 0x8000_0000,
            last == span.x2,
            x <= last + 1 || x == span.x1,
            0 <= low,
            high < side,
            are_bins(bins@, now, base_z),
            forall|a: int, b: int|
                0 <= a < s && 0 <= b < s ==> #[trigger] now(a, b) == extended(
                    held,
                    x1,
                    x as int,
                    low as int,
                    high as int,
                    low as int,
                    s,
                    p,
                    a,
                    b,
                ),
        decreases last - x + 1,
    {
        let column: u32 = wrap(x, side);
        let mut y: i64 = low;
        while y <= high
            invariant
                base_z <= 30,
                0 < side <= 0x4000_0000,
                s == side,
                s == pow2(base_z as nat),
                p == point,
                0 <= low <= y,
                y <= high + 1 || y == low,
                high < side,
                column == x as int % s,
                column < side,
                are_bins(bins@, now, base_z),
                forall|a: int, b: int|
                    0 <= a < s && 0 <= b < s ==> #[trigger] now(a, b) == extended(
                        held,
                        x1,
                        x as int,
                        low as int,
                        high as int,
                        y as int,
                        s,
                        p,
                        a,
                        b,
                    ),
            decreases high - y + 1,
        {
            let ghost before = now;
            add_member(bins, column, y as u32, base_z, point, Ghost(before));
            proof {
                now = bumped(before, column as int, y as int, p);
                assert forall|a: int, b: int| 0 <= a < s && 0 <= b < s implies #[trigger] now(a, b)
                    == extended(
                    held,
                    x1,
                    x as int,
                    low as int,
                    high as int,
                    y + 1,
                    s,
                    p,
                    a,
                    b,
                ) by {
                    let n = hits_so_far(x1, x as int, low as int, high as int, y as int, s, a, b);
                    assert(before(a, b) == held(a, b) + Seq::new(n, |i: int| p));
                    if a == column && b == y {
                        lemma_repeated(n, p);
                        assert((held(a, b) + Seq::new(n, |i: int| p)).push(p) =~= held(a, b)
                            + Seq::new(n, |i: int| p).push(p));
                    }
                }
            }
            y = y + 1;
        }
        proof {
            assert forall|a: int, b: int| 0 <= a < s && 0 <= b < s implies #[trigger] now(a, b)
                == extended(held, x1, x + 1, low as int, high as int, low as int, s, p, a, b) by {
                let n = hits_so_far(x1, x as int, low as int, high as int, y as int, s, a, b);
                let m = hits_so_far(x1, x + 1, low as int, high as int, low as int, s, a, b);
                assert(n == m);
            }
        }
        x = x + 1;
    }
    proof {
        assert forall|a: int, b: int| 0 <= a < s && 0 <= b < s implies #[trigger] now(a, b)
            == after(a, b) by {
            let n = hits_so_far(x1, x as int, low as int, high as int, low as int, s, a, b);
            let m = if span.y1 <= b <= span.y2 {
                columns_hit(span.x1 as int, span.x2 as int, s, a)
            } else {
                0nat
            };
            assert(n == m);
            assert(now(a, b) == held(a, b) + Seq::new(n, |i: int| p));
            assert(after(a, b) == held(a, b) + Seq::new(m, |i: int| point as int));
            assert(Seq::new(n, |i: int| p) =~= Seq::new(m, |i: int| point as int));
        }
        lemma_same_bins(bins@, now, after, base_z);
    }
}

/// The tile holds the points, one behind another.
pub open spec fn tile_holds(
    tile: BaseTile,
    points: Seq<TilePoint>,
    members: Seq<int>,
    bands: int,
) -> bool {
    &&& tile.wf()
    &&& tile.point_positions@.len() == members.len()
    &&& tile.bands@.len() == bands
    &&& forall|k: int|
        0 <= k < members.len() ==> (#[trigger] tile.point_positions@[k]) == (
            points[members[k]].x,
            points[members[k]].y,
        )
    &&& forall|k: int|
        0 <= k < members.len() ==> (#[trigger] tile.point_powers@[k])
            == points[members[k]].point_power
    &&& forall|b: int, k: int|
        0 <= b < bands && 0 <= k < members.len() ==> (#[trigger] tile.bands@[b].values@[k])
            == points[members[k]].values@[b]
}

/// The chunk is that of a tile of the world.
pub open spec fn is_chunk(
    chunk: (u64, BaseTile),
    points: Seq<TilePoint>,
    footprints: Seq<Footprint>,
    base_z: u8,
    bands: int,
    x: u32,
    y: u32,
) -> bool {
    let side = pow2(base_z as nat) as int;
    let members = members_of(footprints, footprints.len() as int, side, x as int, y as int);
    &&& x < side && y < side
    &&& members.len() > 0
    &&& chunk.0 == hilbert_number(x, y, base_z)
    &&& tile_holds(chunk.1, points, members, bands)
}

/// The chunk is that of some tile.
pub open spec fn has_tile(
    chunk: (u64, BaseTile),
    points: Seq<TilePoint>,
    footprints: Seq<Footprint>,
    base_z: u8,
    bands: int,
) -> bool {
    exists|x: u32, y: u32| #[trigger] is_chunk(chunk, points, footprints, base_z, bands, x, y)
}

/// The chunks of a product: one for every tile of the world that holds any of the
/// points, in the order of the tiles' numbers.
pub open spec fn are_chunks(
    chunks: Seq<(u64, BaseTile)>,
    points: Seq<TilePoint>,
    footprints: Seq<Footprint>,
    base_z: u8,
    bands: int,
) -> bool {
    let side = pow2(base_z as nat) as int;
    &&& forall|i: int, j: int|
        #![trigger chunks[i], chunks[j]]
        0 <= i < j < chunks.len() ==> chunks[i].0 < chunks[j].0
    &&& forall|c: int|
        0 <= c < chunks.len() ==> has_tile(
            #[trigger] chunks[c],
            points,
            footprints,
            base_z,
            bands,
        )
    &&& forall|x: u32, y: u32|
        x < side && y < side && (#[trigger] members_of(
            footprints,
            footprints.len() as int,
            side,
            x as int,
            y as int,
        )).len() > 0 ==> exists|c: int|
            0 <= c < chunks.len() && (#[trigger] chunks[c]).0 == hilbert_number(x, y, base_z)
}

proof fn lemma_members_bound(footprints: Seq<Footprint>, n: int, side: int, x: int, y: int, k: int)
    requires
        0 <= k < members_of(footprints, n, side, x, y).len(),
    ensures
        0 <= members_of(footprints, n, side, x, y)[k] < n,
    decreases n,
{
    if n > 0 {
        let before = members_of(footprints, n - 1, side, x, y);
        if k < before.len() {
            lemma_members_bound(footprints, n - 1, side, x, y, k);
        }
    }
}

/// The points of the first footprints, tile by tile.
spec fn held_by(footprints: Seq<Footprint>, n: int, side: int) -> spec_fn(int, int) -> Seq<int> {
    |x: int, y: int| members_of(footprints, n, side, x, y)
}

fn fill_bins(footprints: &Vec<Footprint>, base_z: u8) -> (bins: Vec<TileBin>)
    requires
        base_z <= 30,
    ensures
        are_bins(
            bins@,
            held_by(footprints@, footprints@.len() as int, pow2(base_z as nat) as int),
            base_z,
        ),
{
    let ghost side = pow2(base_z as nat) as int;
    let mut bins: Vec<TileBin> = Vec::new();
    let mut n: usize = 0;
    while n < footprints.len()
        invariant
            n <= footprints@.len(),
            base_z <= 30,
            side == pow2(base_z as nat),
            are_bins(bins@, held_by(footprints@, n as int, side), base_z),
        decreases footprints@.len() - n,
    {
        let ghost before = held_by(footprints@, n as int, side);
        let ghost after = held_by(footprints@, n + 1, side);
        match footprints[n].tiles {
            Some(span) => {
                proof {
                    assert forall|a: int, b: int|
                        0 <= a < side && 0 <= b < side implies #[trigger] after(a, b) == before(
                        a,
                        b,
                    ) + Seq::new(
                        if span.y1 <= b <= span.y2 {
                            columns_hit(span.x1 as int, span.x2 as int, side, a)
                        } else {
                            0nat
                        },
                        |i: int| n as int,
                    ) by {
                        assert(after(a, b) =~= before(a, b) + Seq::new(
                            if span.y1 <= b <= span.y2 {
                                columns_hit(span.x1 as int, span.x2 as int, side, a)
                            } else {
                                0nat
                            },
                            |i: int| n as int,
                        ));
                    }
                }
                add_point(&mut bins, span, base_z, n, Ghost(before), Ghost(after));
            },
            None => {
                proof {
                    assert forall|a: int, b: int|
                        0 <= a < side && 0 <= b < side implies #[trigger] before(a, b) == after(
                        a,
                        b,
                    ) by {
                        assert(before(a, b) =~= after(a, b));
                    }
                    lemma_same_bins(bins@, before, after, base_z);
                }
            },
        }
        n = n + 1;
    }
    bins
}

fn band_values(points: &Vec<TilePoint>, members: &Vec<usize>, band: usize) -> (values: Vec<
    CompactOptI32,
>)
    requires
        band < 4,
        forall|k: int| 0 <= k < members@.len() ==> (#[trigger] members@[k]) < points@.len(),
    ensures
        values@.len() == members@.len(),
        forall|k: int|
            0 <= k < members@.len() ==> (#[trigger] values@[k])
                == points@[members@[k] as int].values@[band as int],
{
    let mut values: Vec<CompactOptI32> = Vec::new();
    let mut k: usize = 0;
    while k < members.len()
        invariant
            k <= members@.len(),
            band < 4,
            values@.len() == k,
            forall|k: int| 0 <= k < members@.len() ==> (#[trigger] members@[k]) < points@.len(),
            forall|i: int|
                0 <= i < k ==> (#[trigger] values@[i])
                    == points@[members@[i] as int].values@[band as int],
        decreases members@.len() - k,
    {
        let point = points[members[k]];
        values.push(point.values[band]);
        k = k + 1;
    }
    values
}

/// Builds the tile of a bin.
fn make_tile(points: &Vec<TilePoint>, members: &Vec<usize>, bands: usize) -> (tile: BaseTile)
    requires
        bands <= 4,
        forall|k: int| 0 <= k < members@.len() ==> (#[trigger] members@[k]) < points@.len(),
    ensures
        tile_holds(tile, points@, places(members@), bands as int),
{
    let mut point_positions: Vec<(u16, u16)> = Vec::new();
    let mut point_powers: Vec<u8> = Vec::new();
    let mut k: usize = 0;
    while k < members.len()
        invariant
            k <= members@.len(),
            point_positions@.len() == k,
            point_powers@.len() == k,
            forall|k: int| 0 <= k < members@.len() ==> (#[trigger] members@[k]) < points@.len(),
            forall|i: int|
                0 <= i < k ==> (#[trigger] point_positions@[i]) == (
                    points@[members@[i] as int].x,
                    points@[members@[i] as int].y,
                ),
            forall|i: int|
                0 <= i < k ==> (#[trigger] point_powers@[i])
                    == points@[members@[i] as int].point_power,
        decreases members@.len() - k,
    {
        let point = points[members[k]];
        point_positions.push((point.x, point.y));
        point_powers.push(point.point_power);
        k = k + 1;
    }
    let mut list: Vec<Band> = Vec::new();
    let mut b: usize = 0;
    while b < bands
        invariant
            b <= bands <= 4,
            list@.len() == b,
            forall|k: int| 0 <= k < members@.len() ==> (#[trigger] members@[k]) < points@.len(),
            forall|c: int|
                0 <= c < b ==> (#[trigger] list@[c]).values@.len() == members@.len() && forall|
                    k: int,
                |
                    0 <= k < members@.len() ==> (#[trigger] list@[c].values@[k])
                        == points@[members@[k] as int].values@[c],
        decreases bands - b,
    {
        list.push(Band { values: band_values(points, members, b) });
        b = b + 1;
    }
    BaseTile { point_positions, point_powers, bands: list }
}

/// Puts the points into the tiles that they reach into.
pub fn assign_tiles(
    points: &Vec<TilePoint>,
    footprints: &Vec<Footprint>,
    base_z: u8,
    bands: usize,
) -> (chunks: Vec<(u64, BaseTile)>)
    requires
        footprints@.len() == points@.len(),
        base_z <= 30,
        1 <= bands <= 4,
    ensures
        are_chunks(chunks@, points@, footprints@, base_z, bands as int),
{
    let bins = fill_bins(footprints, base_z);
    let ghost side = pow2(base_z as nat) as int;
    let ghost n = footprints@.len() as int;
    let mut chunks: Vec<(u64, BaseTile)> = Vec::new();
    let mut i: usize = 0;
    while i < bins.len()
        invariant
            i <= bins@.len(),
            footprints@.len() == points@.len(),
            n == footprints@.len(),
            side == pow2(base_z as nat),
            1 <= bands <= 4,
            are_bins(bins@, held_by(footprints@, n, side), base_z),
            chunks@.len() == i,
            forall|c: int|
                0 <= c < i ==> is_chunk(
                    #[trigger] chunks@[c],
                    points@,
                    footprints@,
                    base_z,
                    bands as int,
                    bins@[c].x,
                    bins@[c].y,
                ),
        decreases bins@.len() - i,
    {
        let bin = &bins[i];
        proof {
            let all = places(bin.members@);
            assert(all == members_of(footprints@, n, side, bin.x as int, bin.y as int));
            assert forall|k: int| 0 <= k < bin.members@.len() implies (#[trigger] bin.members@[k])
                < points@.len() by {
                assert(all[k] == bin.members@[k]);
                lemma_members_bound(footprints@, n, side, bin.x as int, bin.y as int, k);
            }
        }
        let tile = make_tile(points, &bin.members, bands);
        chunks.push((bin.number, tile));
        i = i + 1;
    }
    proof {
        assert forall|a: int, b: int|
            #![trigger chunks@[a], chunks@[b]]
            0 <= a < b < chunks@.len() implies chunks@[a].0 < chunks@[b].0 by {
            assert(bins@[a].number < bins@[b].number);
        }
        assert forall|c: int| 0 <= c < chunks@.len() implies has_tile(
            #[trigger] chunks@[c],
            points@,
            footprints@,
            base_z,
            bands as int,
        ) by {
            assert(is_chunk(
                chunks@[c],
                points@,
                footprints@,
                base_z,
                bands as int,
                bins@[c].x,
                bins@[c].y,
            ));
        }
        assert forall|x: u32, y: u32|
            x < side && y < side && (#[trigger] members_of(
                footprints@,
                n,
                side,
                x as int,
                y as int,
            )).len() > 0 implies exists|c: int|
            0 <= c < chunks@.len() && (#[trigger] chunks@[c]).0 == hilbert_number(x, y, base_z) by {
            let held = held_by(footprints@, n, side);
            assert(held(x as int, y as int).len() > 0);
            assert(has_bin(bins@, x as int, y as int));
            let c = choose|c: int|
                0 <= c < bins@.len() && (#[trigger] bins@[c]).x == x as int && bins@[c].y
                    == y as int;
            assert(chunks@[c].0 == hilbert_number(x, y, base_z));
        }
    }
    chunks
}

/// Every position in a tile is that of one of the points: tiles keep the
/// coordinates of the base grid.
pub proof fn lemma_positions_kept(
    chunks: Seq<(u64, BaseTile)>,
    points: Seq<TilePoint>,
    footprints: Seq<Footprint>,
    base_z: u8,
    bands: int,
    c: int,
    k: int,
)
    requires
        are_chunks(chunks, points, footprints, base_z, bands),
        footprints.len() == points.len(),
        0 <= c < chunks.len(),
        0 <= k < chunks[c].1.point_positions@.len(),
    ensures
        chunks[c].1.wf(),
        exists|i: int|
            0 <= i < points.len() && chunks[c].1.point_positions@[k] == (
                (#[trigger] points[i]).x,
                points[i].y,
            ),
{
    assert(has_tile(chunks[c], points, footprints, base_z, bands));
    let (x, y) = choose|x: u32, y: u32| #[trigger]
        is_chunk(chunks[c], points, footprints, base_z, bands, x, y);
    let side = pow2(base_z as nat) as int;
    let n = footprints.len() as int;
    let members = members_of(footprints, n, side, x as int, y as int);
    lemma_members_bound(footprints, n, side, x as int, y as int, k);
    let i = members[k];
    assert(chunks[c].1.point_positions@[k] == (points[i].x, points[i].y));
}

/// The least of the values that points have on one side.
pub open spec fn least_edge(footprints: Seq<Footprint>, edge: spec_fn(Footprint) -> u64) -> u64
    decreases footprints.len(),
{
    if footprints.len() == 0 {
        DOUBLE_MAX
    } else {
        lesser(least_edge(footprints.drop_last(), edge), edge(footprints.last()))
    }
}

pub open spec fn greatest_edge(footprints: Seq<Footprint>, edge: spec_fn(Footprint) -> u64) -> u64
    decreases footprints.len(),
{
    if footprints.len() == 0 {
        DOUBLE_MIN
    } else {
        greater(greatest_edge(footprints.drop_last(), edge), edge(footprints.last()))
    }
}

pub open spec fn west_edge() -> spec_fn(Footprint) -> u64 {
    |f: Footprint| f.west
}

pub open spec fn south_edge() -> spec_fn(Footprint) -> u64 {
    |f: Footprint| f.south
}

pub open spec fn east_edge() -> spec_fn(Footprint) -> u64 {
    |f: Footprint| f.east
}

pub open spec fn north_edge() -> spec_fn(Footprint) -> u64 {
    |f: Footprint| f.north
}

/// The bounds of all the points, those off the map too: west, south, east and
/// north.
pub open spec fn bounds_of_points(footprints: Seq<Footprint>) -> Seq<u64> {
    seq![
        least_edge(footprints, west_edge()),
        least_edge(footprints, south_edge()),
        greatest_edge(footprints, east_edge()),
        greatest_edge(footprints, north_edge()),
    ]
}

/// The bounds of a product lie around all its points, and touch them. West and south
/// are not above, and east and north not below, the edge of any point where that is a
/// number; and where some point has such an edge that a double can hold, each of them
/// is the edge of a point. Without any, they are the greatest and the least double.
pub proof fn lemma_bounds_around(footprints: Seq<Footprint>)
    ensures
        ({
            let bounds = bounds_of_points(footprints);
            &&& forall|i: int|
                0 <= i < footprints.len() && !is_nan((#[trigger] footprints[i]).west)
                    ==> double_at_most(bounds[0], footprints[i].west)
            &&& forall|i: int|
                0 <= i < footprints.len() && !is_nan((#[trigger] footprints[i]).south)
                    ==> double_at_most(bounds[1], footprints[i].south)
            &&& forall|i: int|
                0 <= i < footprints.len() && !is_nan((#[trigger] footprints[i]).east)
                    ==> double_at_most(footprints[i].east, bounds[2])
            &&& forall|i: int|
                0 <= i < footprints.len() && !is_nan((#[trigger] footprints[i]).north)
                    ==> double_at_most(footprints[i].north, bounds[3])
            &&& bounds[0] == 0x7fef_ffff_ffff_ffff || exists|i: int|
                0 <= i < footprints.len() && bounds[0] == (#[trigger] footprints[i]).west
            &&& bounds[1] == 0x7fef_ffff_ffff_ffff || exists|i: int|
                0 <= i < footprints.len() && bounds[1] == (#[trigger] footprints[i]).south
            &&& bounds[2] == 0xffef_ffff_ffff_ffff || exists|i: int|
                0 <= i < footprints.len() && bounds[2] == (#[trigger] footprints[i]).east
            &&& bounds[3] == 0xffef_ffff_ffff_ffff || exists|i: int|
                0 <= i < footprints.len() && bounds[3] == (#[trigger] footprints[i]).north
        }),
{
    lemma_least_edge(footprints, west_edge());
    lemma_least_edge(footprints, south_edge());
    lemma_greatest_edge(footprints, east_edge());
    lemma_greatest_edge(footprints, north_edge());
    let bounds = bounds_of_points(footprints);
    assert forall|i: int| 0 <= i < footprints.len() && !is_nan(
        (#[trigger] footprints[i]).west,
    ) implies double_at_most(bounds[0], footprints[i].west) by {
        assert(west_edge()(footprints[i]) == footprints[i].west);
    }
    assert forall|i: int| 0 <= i < footprints.len() && !is_nan(
        (#[trigger] footprints[i]).south,
    ) implies double_at_most(bounds[1], footprints[i].south) by {
        assert(south_edge()(footprints[i]) == footprints[i].south);
    }
    assert forall|i: int| 0 <= i < footprints.len() && !is_nan(
        (#[trigger] footprints[i]).east,
    ) implies double_at_most(footprints[i].east, bounds[2]) by {
        assert(east_edge()(footprints[i]) == footprints[i].east);
    }
    assert forall|i: int| 0 <= i < footprints.len() && !is_nan(
        (#[trigger] footprints[i]).north,
    ) implies double_at_most(footprints[i].north, bounds[3]) by {
        assert(north_edge()(footprints[i]) == footprints[i].north);
    }
}

/// Two bit patterns are those of numbers, of which the first is not the greater.
pub open spec fn double_at_most(a: u64, b: u64) -> bool {
    &&& !is_nan(a)
    &&& !is_nan(b)
    &&& order_key(a) <= order_key(b)
}

proof fn lemma_least_edge(footprints: Seq<Footprint>, edge: spec_fn(Footprint) -> u64)
    ensures
        !is_nan(least_edge(footprints, edge)),
        forall|i: int|
            #![trigger footprints[i]]
            0 <= i < footprints.len() && !is_nan(edge(footprints[i])) ==> double_at_most(
                least_edge(footprints, edge),
                edge(footprints[i]),
            ),
        least_edge(footprints, edge) == 0x7fef_ffff_ffff_ffff || exists|i: int|
            #![trigger footprints[i]]
            0 <= i < footprints.len() && least_edge(footprints, edge) == edge(footprints[i]),
    decreases footprints.len(),
{
    if footprints.len() > 0 {
        let before = footprints.drop_last();
        lemma_least_edge(before, edge);
        let last = footprints.len() - 1;
        assert(footprints[last] == footprints.last());
        assert forall|i: int|
            #![trigger footprints[i]]
            0 <= i < footprints.len() && !is_nan(edge(footprints[i])) implies double_at_most(
            least_edge(footprints, edge),
            edge(footprints[i]),
        ) by {
            if i < last {
                assert(before[i] == footprints[i]);
            }
        }
        let value = least_edge(before, edge);
        if value != 0x7fef_ffff_ffff_ffff {
            let i = choose|i: int|
                #![trigger before[i]]
                0 <= i < before.len() && value == edge(before[i]);
            assert(footprints[i] == before[i]);
        }
    }
}

proof fn lemma_greatest_edge(footprints: Seq<Footprint>, edge: spec_fn(Footprint) -> u64)
    ensures
        !is_nan(greatest_edge(footprints, edge)),
        forall|i: int|
            #![trigger footprints[i]]
            0 <= i < footprints.len() && !is_nan(edge(footprints[i])) ==> double_at_most(
                edge(footprints[i]),
                greatest_edge(footprints, edge),
            ),
        greatest_edge(footprints, edge) == 0xffef_ffff_ffff_ffff || exists|i: int|
            #![trigger footprints[i]]
            0 <= i < footprints.len() && greatest_edge(footprints, edge) == edge(footprints[i]),
    decreases footprints.len(),
{
    if footprints.len() > 0 {
        let before = footprints.drop_last();
        lemma_greatest_edge(before, edge);
        let last = footprints.len() - 1;
        assert(footprints[last] == footprints.last());
        assert forall|i: int|
            #![trigger footprints[i]]
            0 <= i < footprints.len() && !is_nan(edge(footprints[i])) implies double_at_most(
            edge(footprints[i]),
            greatest_edge(footprints, edge),
        ) by {
            if i < last {
                assert(before[i] == footprints[i]);
            }
        }
        let value = greatest_edge(before, edge);
        if value != 0xffef_ffff_ffff_ffff {
            let i = choose|i: int|
                #![trigger before[i]]
                0 <= i < before.len() && value == edge(before[i]);
            assert(footprints[i] == before[i]);
        }
    }
}

fn point_bounds(footprints: &Vec<Footprint>) -> (bounds: [u64; 4])
    ensures
        bounds@ == bounds_of_points(footprints@),
{
    let mut west: u64 = DOUBLE_MAX;
    let mut south: u64 = DOUBLE_MAX;
    let mut east: u64 = DOUBLE_MIN;
    let mut north: u64 = DOUBLE_MIN;
    let mut i: usize = 0;
    proof {
        assert(footprints@.take(0) =~= Seq::empty());
    }
    while i < footprints.len()
        invariant
            i <= footprints@.len(),
            west == least_edge(footprints@.take(i as int), west_edge()),
            south == least_edge(footprints@.take(i as int), south_edge()),
            east == greatest_edge(footprints@.take(i as int), east_edge()),
            north == greatest_edge(footprints@.take(i as int), north_edge()),
        decreases footprints@.len() - i,
    {
        proof {
            assert(footprints@.take(i + 1).drop_last() =~= footprints@.take(i as int));
            assert(footprints@.take(i + 1).last() == footprints@[i as int]);
        }
        let f = footprints[i];
        west = min(west, f.west);
        south = min(south, f.south);
        east = max(east, f.east);
        north = max(north, f.north);
        i = i + 1;
    }
    assert(footprints@.take(footprints@.len() as int) =~= footprints@);
    let bounds: [u64; 4] = [west, south, east, north];
    assert(bounds@ =~= bounds_of_points(footprints@));
    bounds
}

/// The grid of a product: the one derived from its messages, or the one of the
/// catalogue.
pub fn product_grid(data: &ProductData, catalogue: LngLatGrid) -> (grid: LngLatGrid)
    ensures
        grid == match data.grid {
            Some(grid) => grid,
            None => catalogue,
        },
{
    match data.grid {
        Some(grid) => grid,
        None => catalogue,
    }
}

fn no_quantizations(count: usize) -> (list: Vec<Option<Quantization>>)
    ensures
        list@.len() == count,
        forall|i: int| 0 <= i < count ==> (#[trigger] list@[i]) is None,
{
    let mut list: Vec<Option<Quantization>> = Vec::new();
    let mut i: usize = 0;
    while i < count
        invariant
            i <= count,
            list@.len() == i,
            forall|k: int| 0 <= k < i ==> (#[trigger] list@[k]) is None,
        decreases count - i,
    {
        list.push(None);
        i = i + 1;
    }
    list
}

fn no_omissions(count: usize) -> (list: Vec<Option<Vec<u64>>>)
    ensures
        list@.len() == count,
        forall|i: int| 0 <= i < count ==> (#[trigger] list@[i]) is None,
{
    let mut list: Vec<Option<Vec<u64>>> = Vec::new();
    let mut i: usize = 0;
    while i < count
        invariant
            i <= count,
            list@.len() == i,
            forall|k: int| 0 <= k < i ==> (#[trigger] list@[k]) is None,
        decreases count - i,
    {
        list.push(None);
        i = i + 1;
    }
    list
}

/// Nothing is quantized or left out yet.
pub open spec fn is_plain(spec: TilesetSpec) -> bool {
    let count = spec.band_specs@.len();
    &&& spec.quantize@.len() == count
    &&& spec.omit_zero@.len() == count
    &&& spec.omit_class@.len() == count
    &&& forall|b: int| 0 <= b < count ==> (#[trigger] spec.quantize@[b]) is None
    &&& forall|b: int| 0 <= b < count ==> (#[trigger] spec.omit_zero@[b]) is None
    &&& forall|b: int| 0 <= b < count ==> (#[trigger] spec.omit_class@[b]) is None
}

/// Prepares a product for tiling, given its points with all their bands and where
/// each of them lies.
pub fn prepare_product(
    product_id: GpvProductIdentifier,
    band_specs: Vec<BandSpec>,
    grid: LngLatGrid,
    base_z: u8,
    points: &Vec<TilePoint>,
    footprints: &Vec<Footprint>,
) -> (product: PreparedProduct)
    requires
        footprints@.len() == points@.len(),
        base_z <= 30,
        1 <= product_id.bands@.len() <= 4,
    ensures
        product.product_id == product_id,
        product.spec.name@ == product_id.path@,
        product.spec.base_z == base_z,
        product.spec.grid_spec == grid,
        product.spec.aggregation == product_id.aggregation,
        product.spec.band_specs == band_specs,
        is_plain(product.spec),
        product.spec.bounds@ == bounds_of_points(footprints@),
        are_chunks(
            product.chunks@,
            points@,
            footprints@,
            base_z,
            product_id.bands@.len() as int,
        ),
{
    let count: usize = band_specs.len();
    let chunks = assign_tiles(points, footprints, base_z, product_id.bands.len());
    let spec = TilesetSpec {
        name: product_id.path.clone(),
        base_z,
        grid_spec: grid,
        aggregation: product_id.aggregation,
        quantize: no_quantizations(count),
        omit_zero: no_omissions(count),
        omit_class: no_omissions(count),
        band_specs,
        bounds: point_bounds(footprints),
    };
    PreparedProduct { product_id, spec, chunks }
}

/// A point reaches into a tile: the row of the tile is among the rows of its span, and
/// one of the columns of its span is the column of the tile, counted around the world.
pub open spec fn reaches(footprint: Footprint, side: int, x: int, y: int) -> bool {
    &&& footprint.tiles matches Some(span)
    &&& span.y1 <= y <= span.y2
    &&& exists|column: int| span.x1 <= column <= span.x2 && #[trigger] (column % side) == x
}

proof fn lemma_columns_reached(x1: int, x2: int, side: int, column: int)
    requires
        side > 0,
    ensures
        columns_hit(x1, x2, side, column) > 0 <==> exists|x: int|
            x1 <= x <= x2 && #[trigger] (x % side) == column,
    decreases x2 - x1 + 1,
{
    if x2 >= x1 {
        lemma_columns_reached(x1, x2 - 1, side, column);
        if columns_hit(x1, x2 - 1, side, column) > 0 {
            let x = choose|x: int| x1 <= x <= x2 - 1 && #[trigger] (x % side) == column;
            assert(x1 <= x <= x2 && x % side == column);
        }
        assert(x1 <= x2 <= x2);
        if exists|x: int| x1 <= x <= x2 && #[trigger] (x % side) == column {
            let x = choose|x: int| x1 <= x <= x2 && #[trigger] (x % side) == column;
            if x < x2 {
                assert(x1 <= x <= x2 - 1 && x % side == column);
            }
        }
    }
}

/// A tile holds the points that reach into it and no others, in the order of the points.
pub proof fn lemma_members(footprints: Seq<Footprint>, side: int, x: int, y: int)
    requires
        side > 0,
    ensures
        ({
            let members = members_of(footprints, footprints.len() as int, side, x, y);
            &&& forall|i: int|
                0 <= i < footprints.len() ==> (members.contains(i) <==> reaches(
                    #[trigger] footprints[i],
                    side,
                    x,
                    y,
                ))
            &&& forall|k: int| 0 <= k < members.len() ==> 0 <= #[trigger] members[k]
                < footprints.len()
            &&& forall|k: int, l: int|
                #![trigger members[k], members[l]]
                0 <= k <= l < members.len() ==> members[k] <= members[l]
        }),
{
    lemma_first_members(footprints, footprints.len() as int, side, x, y);
}

proof fn lemma_first_members(footprints: Seq<Footprint>, n: int, side: int, x: int, y: int)
    requires
        side > 0,
        0 <= n <= footprints.len(),
    ensures
        ({
            let members = members_of(footprints, n, side, x, y);
            &&& forall|i: int|
                0 <= i < n ==> (members.contains(i) <==> reaches(
                    #[trigger] footprints[i],
                    side,
                    x,
                    y,
                ))
            &&& forall|k: int| 0 <= k < members.len() ==> 0 <= #[trigger] members[k] < n
            &&& forall|k: int, l: int|
                #![trigger members[k], members[l]]
                0 <= k <= l < members.len() ==> members[k] <= members[l]
        }),
    decreases n,
{
    if n > 0 {
        lemma_first_members(footprints, n - 1, side, x, y);
        let before = members_of(footprints, n - 1, side, x, y);
        let members = members_of(footprints, n, side, x, y);
        let count = hits(footprints[n - 1], side, x, y);
        if let Some(span) = footprints[n - 1].tiles {
            lemma_columns_reached(span.x1 as int, span.x2 as int, side, x);
        }
        assert(reaches(footprints[n - 1], side, x, y) <==> count > 0);
        assert forall|i: int| 0 <= i < n implies (members.contains(i) <==> reaches(
            #[trigger] footprints[i],
            side,
            x,
            y,
        )) by {
            if members.contains(i) {
                let k = choose|k: int| 0 <= k < members.len() && members[k] == i;
                if k < before.len() {
                    assert(before[k] == i);
                    assert(before.contains(i));
                } else {
                    assert(i == n - 1);
                }
            }
            if i < n - 1 && before.contains(i) {
                let k = choose|k: int| 0 <= k < before.len() && before[k] == i;
                assert(members[k] == i);
            }
            if i == n - 1 && count > 0 {
                assert(members[before.len() as int] == i);
            }
        }
    }
}

/// A point is in the tile, with its place, its power and the values of its bands.
pub open spec fn stands_in(point: TilePoint, tile: BaseTile, bands: int, k: int) -> bool {
    &&& 0 <= k < tile.point_positions@.len()
    &&& tile.point_positions@[k] == (point.x, point.y)
    &&& tile.point_powers@[k] == point.point_power
    &&& tile.bands@.len() == bands
    &&& forall|b: int| 0 <= b < bands ==> (#[trigger] tile.bands@[b]).values@[k] == point.values@[b]
}

/// Every point is in the chunk of every tile of the world that it reaches into, with all
/// that it holds.
pub proof fn lemma_point_assigned(
    chunks: Seq<(u64, BaseTile)>,
    points: Seq<TilePoint>,
    footprints: Seq<Footprint>,
    base_z: u8,
    bands: int,
    i: int,
    x: u32,
    y: u32,
)
    requires
        are_chunks(chunks, points, footprints, base_z, bands),
        footprints.len() == points.len(),
        base_z <= 30,
        0 <= i < points.len(),
        x < pow2(base_z as nat) && y < pow2(base_z as nat),
        reaches(footprints[i], pow2(base_z as nat) as int, x as int, y as int),
    ensures
        exists|c: int|
            0 <= c < chunks.len() && (#[trigger] chunks[c]).0 == hilbert_number(x, y, base_z),
        forall|c: int, a: u32, b: u32|
            0 <= c < chunks.len() && #[trigger] is_chunk(
                chunks[c],
                points,
                footprints,
                base_z,
                bands,
                a,
                b,
            ) && a == x && b == y ==> exists|k: int| #[trigger]
                stands_in(points[i], chunks[c].1, bands, k),
{
    let side = pow2(base_z as nat) as int;
    vstd::arithmetic::power2::lemma_pow2_pos(base_z as nat);
    lemma_members(footprints, side, x as int, y as int);
    let members = members_of(footprints, footprints.len() as int, side, x as int, y as int);
    assert(reaches(footprints[i], side, x as int, y as int));
    assert(members.contains(i));
    let k = choose|k: int| 0 <= k < members.len() && members[k] == i;
    assert forall|c: int, a: u32, b: u32|
        0 <= c < chunks.len() && #[trigger] is_chunk(
            chunks[c],
            points,
            footprints,
            base_z,
            bands,
            a,
            b,
        ) && a == x && b == y implies exists|k: int| #[trigger]
        stands_in(points[i], chunks[c].1, bands, k) by {
        let tile = chunks[c].1;
        assert(tile.point_positions@[k] == (points[members[k]].x, points[members[k]].y));
        assert(tile.point_powers@[k] == points[members[k]].point_power);
        assert forall|band: int| 0 <= band < bands implies (#[trigger] tile.bands@[band]).values@[k]
            == points[i].values@[band] by {
            assert(tile.bands@[band].values@[k] == points[members[k]].values@[band]);
        }
        assert(stands_in(points[i], tile, bands, k));
    }
}

/// A place of the tile is that of a point that reaches into it.
pub open spec fn is_reached(
    tile: BaseTile,
    points: Seq<TilePoint>,
    footprints: Seq<Footprint>,
    bands: int,
    side: int,
    x: int,
    y: int,
    k: int,
) -> bool {
    exists|i: int|
        0 <= i < points.len() && #[trigger] stands_in(points[i], tile, bands, k) && reaches(
            footprints[i],
            side,
            x,
            y,
        )
}

/// Every place of a chunk is that of a point that reaches into the tile of the chunk, with
/// all that the point holds. No chunk is empty, and they ascend by the numbers of their
/// tiles.
pub proof fn lemma_chunk_holds(
    chunks: Seq<(u64, BaseTile)>,
    points: Seq<TilePoint>,
    footprints: Seq<Footprint>,
    base_z: u8,
    bands: int,
    c: int,
)
    requires
        are_chunks(chunks, points, footprints, base_z, bands),
        footprints.len() == points.len(),
        base_z <= 30,
        0 <= c < chunks.len(),
    ensures
        chunks[c].1.point_positions@.len() > 0,
        c > 0 ==> chunks[c - 1].0 < chunks[c].0,
        exists|x: u32, y: u32|
            x < pow2(base_z as nat) && y < pow2(base_z as nat) && chunks[c].0
                == #[trigger] hilbert_number(x, y, base_z) && forall|k: int|
                0 <= k < chunks[c].1.point_positions@.len() ==> #[trigger] is_reached(
                    chunks[c].1,
                    points,
                    footprints,
                    bands,
                    pow2(base_z as nat) as int,
                    x as int,
                    y as int,
                    k,
                ),
{
    let side = pow2(base_z as nat) as int;
    vstd::arithmetic::power2::lemma_pow2_pos(base_z as nat);
    let chunk = chunks[c];
    assert(has_tile(chunk, points, footprints, base_z, bands));
    let (x, y) = choose|x: u32, y: u32| #[trigger]
        is_chunk(chunk, points, footprints, base_z, bands, x, y);
    lemma_members(footprints, side, x as int, y as int);
    let members = members_of(footprints, footprints.len() as int, side, x as int, y as int);
    let tile = chunk.1;
    assert forall|k: int| 0 <= k < tile.point_positions@.len() implies #[trigger] is_reached(
        tile,
        points,
        footprints,
        bands,
        side,
        x as int,
        y as int,
        k,
    ) by {
        let i = members[k];
        assert(members.contains(i));
        assert(tile.point_positions@[k] == (points[i].x, points[i].y));
        assert(tile.point_powers@[k] == points[i].point_power);
        assert forall|band: int| 0 <= band < bands implies (#[trigger] tile.bands@[band]).values@[k]
            == points[i].values@[band] by {
            assert(tile.bands@[band].values@[k] == points[members[k]].values@[band]);
        }
        assert(reaches(footprints[i], side, x as int, y as int));
        assert(stands_in(points[i], tile, bands, k));
    }
    assert(chunk.0 == hilbert_number(x, y, base_z));
}

/// A product starts without rules: for every band there is a place for its classes and
/// for what is left out of it before and after them, and all of these are empty.
pub proof fn lemma_plain(spec: TilesetSpec, band: int)
    requires
        is_plain(spec),
        0 <= band < spec.band_specs@.len(),
    ensures
        spec.quantize@.len() == spec.band_specs@.len(),
        spec.omit_zero@.len() == spec.band_specs@.len(),
        spec.omit_class@.len() == spec.band_specs@.len(),
        spec.quantize@[band] is None,
        spec.omit_zero@[band] is None,
        spec.omit_class@[band] is None,
{
}

} // verus!
