//! A horizontal sweep that draws the boundary of rectangles.
//!
//! The sweep maintains the covered X intervals above and below each event line.
//! Their difference forms horizontal boundaries; the ends of the covered
//! intervals form vertical boundaries between event lines.
//!
//! Event lines where the coverage is unchanged are skipped, so a run of rows
//! with the same horizontal extent produces one tall band rather than one band
//! per row. Raster input is full of such runs, and every skipped band is two
//! edges per covered interval that the contour tracer never has to stitch back
//! together.

use vstd::prelude::*;


use crate::assembly::{all_sharp, in_sweep_order};
use crate::boundary::{
    borders, breaks_at, comes_before, hseg, ring_h, ring_v, sharp, step_h, step_v, straight, vseg,
    Edge, Region,
};
use crate::contour::{bounds_region, directed};
use crate::geometry::Coord;
use crate::intervals::{
    add_horizontal_edges, add_interval, cover_step, in_cover, in_tally, line_edges, merge_active,
    remove_interval, row_breaks, same_intervals, separated, tallied, tally,
};
use crate::intervals::{lemma_entry_tally, lemma_tally_entry};
use crate::rect_union::{all_valid, covered, IntRect};
use crate::sort::{ascending, lemma_same_elements, sort, Ordered};
use crate::sums::{ind, indices, sum};
use crate::sums::{
    lemma_sum_append, lemma_sum_bounds_term, lemma_sum_change, lemma_sum_monotone,
    lemma_sum_positive, lemma_sum_push, lemma_sum_same, lemma_sum_zero,
};

verus! {

/// Where a rectangle ends, and which one it is.
#[derive(Clone, Copy, Debug, PartialEq, Eq, Structural)]
pub struct EndEvent {
    pub y: i32,
    pub index: usize,
}

impl Ordered for EndEvent {
    open spec fn leq(self, other: Self) -> bool {
        self.y <= other.y
    }

    proof fn lemma_total(a: Self, b: Self) {
    }

    proof fn lemma_transitive(a: Self, b: Self, c: Self) {
    }

    fn at_most(&self, other: &Self) -> (r: bool) {
        self.y <= other.y
    }
}

/// The events list the end of each rectangle once, from the top down.
spec fn ends_of(ends: Seq<EndEvent>, bands: Seq<IntRect>) -> bool {
    &&& ends.len() == bands.len()
    &&& ascending(ends)
    &&& forall|j: int|
        0 <= j < ends.len() ==> {
            &&& (#[trigger] ends[j]).index < bands.len()
            &&& ends[j].y == bands[ends[j].index as int].y2
        }
    &&& forall|i: int, j: int|
        #![trigger ends[i], ends[j]]
        0 <= i < j < ends.len() ==> ends[i].index != ends[j].index
    &&& forall|i: int| 0 <= i < bands.len() ==> #[trigger] gone(ends, ends.len() as int, i)
}

/// The end of rectangle `i` is among the first `t` events.
spec fn gone(ends: Seq<EndEvent>, t: int, i: int) -> bool {
    exists|j: int| 0 <= j < t && (#[trigger] ends[j]).index == i
}

fn list_ends(bands: &Vec<IntRect>) -> (ends: Vec<EndEvent>)
    ensures
        ends_of(ends@, bands@),
{
    let mut ends: Vec<EndEvent> = Vec::new();
    let mut i: usize = 0;
    while i < bands.len()
        invariant
            i <= bands@.len(),
            ends@.len() == i,
            forall|k: int|
                0 <= k < i ==> #[trigger] ends@[k] == (EndEvent { y: bands@[k].y2, index: k as usize }),
        decreases bands@.len() - i,
    {
        ends.push(EndEvent { y: bands[i].y2, index: i });
        i = i + 1;
    }
    let ghost unsorted = ends@;
    let count: usize = bands.len();
    let sorted = sort(ends);
    proof {
        lemma_same_elements(sorted@, unsorted);
        assert forall|j: int| 0 <= j < sorted@.len() implies {
            &&& (#[trigger] sorted@[j]).index < bands@.len()
            &&& sorted@[j].y == bands@[sorted@[j].index as int].y2
        } by {
            assert(sorted@.contains(sorted@[j]));
            let k = choose|k: int| 0 <= k < unsorted.len() && unsorted[k] == sorted@[j];
            assert(unsorted[k] == sorted@[j]);
        }
        assert(unsorted.no_duplicates());
        unsorted.lemma_multiset_has_no_duplicates();
        assert(sorted@.to_multiset() == unsorted.to_multiset());
        sorted@.lemma_multiset_has_no_duplicates_conv();
        assert forall|a: int, b: int|
            #![trigger sorted@[a], sorted@[b]]
            0 <= a < b < sorted@.len() implies sorted@[a].index != sorted@[b].index by {
            assert(sorted@[a] != sorted@[b]);
        }
        assert forall|k: int| 0 <= k < bands@.len() implies #[trigger] gone(
            sorted@,
            sorted@.len() as int,
            k,
        ) by {
            assert(unsorted.contains(unsorted[k]));
            assert(sorted@.contains(unsorted[k]));
            let j = choose|j: int| 0 <= j < sorted@.len() && sorted@[j] == unsorted[k];
            assert(sorted@[j].index == k);
        }
    }
    sorted
}

/// Whether rectangle `i` reaches from column `a` to column `c` and, of the
/// first `s` starts and the first `t` ends, only its start has been met.
spec fn live_term(
    bands: Seq<IntRect>,
    ends: Seq<EndEvent>,
    s: int,
    t: int,
    a: int,
    c: int,
) -> spec_fn(int) -> int {
    |i: int|
        if bands[i].x1 == a && bands[i].x2 == c {
            ind(i < s) - ind(gone(ends, t, i))
        } else {
            0
        }
}

/// How many rectangles from column `a` to column `c` have been met but not left.
spec fn live(
    bands: Seq<IntRect>,
    ends: Seq<EndEvent>,
    s: int,
    t: int,
    a: int,
    c: int,
) -> int {
    sum(indices(bands.len()), live_term(bands, ends, s, t, a, c))
}

proof fn lemma_live_none(bands: Seq<IntRect>, ends: Seq<EndEvent>, a: int, c: int)
    ensures
        live(bands, ends, 0, 0, a, c) == 0,
{
    lemma_sum_zero(indices(bands.len()), live_term(bands, ends, 0, 0, a, c));
}

proof fn lemma_live_start(
    bands: Seq<IntRect>,
    ends: Seq<EndEvent>,
    s: int,
    t: int,
    a: int,
    c: int,
)
    requires
        0 <= s < bands.len(),
    ensures
        live(bands, ends, s + 1, t, a, c) == live(bands, ends, s, t, a, c) + ind(
            a == bands[s].x1 && c == bands[s].x2,
        ),
{
    lemma_sum_change(
        indices(bands.len()),
        live_term(bands, ends, s, t, a, c),
        live_term(bands, ends, s + 1, t, a, c),
        s,
    );
}

proof fn lemma_live_end(
    bands: Seq<IntRect>,
    ends: Seq<EndEvent>,
    s: int,
    t: int,
    a: int,
    c: int,
)
    requires
        ends_of(ends, bands),
        0 <= t < ends.len(),
    ensures
        live(bands, ends, s, t + 1, a, c) == live(bands, ends, s, t, a, c) - ind(
            a == bands[ends[t].index as int].x1 && c == bands[ends[t].index as int].x2,
        ),
{
    let k = ends[t].index as int;
    assert(!gone(ends, t, k)) by {
        if gone(ends, t, k) {
            let j = choose|j: int| 0 <= j < t && (#[trigger] ends[j]).index == k;
            assert(ends[j].index != ends[t].index);
        }
    }
    assert(gone(ends, t + 1, k));
    let s0 = indices(bands.len());
    let f = live_term(bands, ends, s, t, a, c);
    let g = live_term(bands, ends, s, t + 1, a, c);
    assert forall|i: int| 0 <= i < s0.len() && i != k implies f(#[trigger] s0[i]) == g(s0[i]) by {
        assert(s0[i] == i);
        if gone(ends, t + 1, i) {
            let j = choose|j: int| 0 <= j < t + 1 && (#[trigger] ends[j]).index == i;
            assert(j < t);
            assert(gone(ends, t, i));
        }
        if gone(ends, t, i) {
            let j = choose|j: int| 0 <= j < t && (#[trigger] ends[j]).index == i;
            assert(ends[j].index == i);
            assert(gone(ends, t + 1, i));
        }
    }
    lemma_sum_change(s0, f, g, k);
}

proof fn lemma_count_below(n: nat, s: int)
    requires
        0 <= s <= n,
    ensures
        sum(indices(n), |i: int| ind(i < s)) == s,
    decreases n,
{
    let f = |i: int| ind(i < s);
    if n > 0 {
        let m = (n - 1) as nat;
        assert(indices(n).drop_last() =~= indices(m));
        assert(indices(n).last() == n - 1);
        if s == n {
            lemma_count_below(m, s - 1);
            lemma_sum_same(indices(m), f, |i: int| ind(i < s - 1));
        } else {
            lemma_count_below(m, s);
        }
    }
}

proof fn lemma_live_bound(
    bands: Seq<IntRect>,
    ends: Seq<EndEvent>,
    s: int,
    t: int,
    a: int,
    c: int,
)
    requires
        0 <= s <= bands.len(),
    ensures
        live(bands, ends, s, t, a, c) <= s,
{
    lemma_count_below(bands.len(), s);
    lemma_sum_monotone(
        indices(bands.len()),
        live_term(bands, ends, s, t, a, c),
        |i: int| ind(i < s),
    );
}

/// The events up to line `y` have been met, and no other.
spec fn met(bands: Seq<IntRect>, ends: Seq<EndEvent>, s: int, t: int, y: int) -> bool {
    &&& 0 <= s <= bands.len()
    &&& 0 <= t <= ends.len()
    &&& forall|i: int| 0 <= i < s ==> (#[trigger] bands[i]).y1 <= y
    &&& forall|i: int| s <= i < bands.len() ==> (#[trigger] bands[i]).y1 > y
    &&& forall|j: int| 0 <= j < t ==> (#[trigger] ends[j]).y <= y
    &&& forall|j: int| t <= j < ends.len() ==> (#[trigger] ends[j]).y > y
}

/// What has been met and not left is what reaches over the row below the line.
proof fn lemma_gone_met(
    bands: Seq<IntRect>,
    ends: Seq<EndEvent>,
    s: int,
    t: int,
    y: int,
    i: int,
)
    requires
        ends_of(ends, bands),
        met(bands, ends, s, t, y),
        0 <= i < bands.len(),
    ensures
        gone(ends, t, i) == (bands[i].y2 <= y),
        (i < s) == (bands[i].y1 <= y),
{
    assert(gone(ends, ends.len() as int, i));
    let j = choose|j: int| 0 <= j < ends.len() && (#[trigger] ends[j]).index == i;
    if bands[i].y2 <= y {
        assert(ends[j].y <= y);
        assert(j < t);
        assert(gone(ends, t, i));
    }
    if gone(ends, t, i) {
        let q = choose|q: int| 0 <= q < t && (#[trigger] ends[q]).index == i;
        assert(ends[q].y <= y);
    }
}

/// An interval is live in a row just when a rectangle of that width reaches
/// over the row.
proof fn lemma_live_row(
    bands: Seq<IntRect>,
    ends: Seq<EndEvent>,
    s: int,
    t: int,
    y: int,
    active: Seq<(i32, i32, usize)>,
    x: int,
)
    requires
        all_valid(bands),
        ends_of(ends, bands),
        met(bands, ends, s, t, y),
        tallied(active),
        forall|a: int, c: int| #[trigger]
            tally(active, a, c) == live(bands, ends, s, t, a, c),
    ensures
        in_tally(active, active.len() as int, x) == covered(bands, x, y),
{
    if in_tally(active, active.len() as int, x) {
        let k = choose|k: int| 0 <= k < active.len() && (#[trigger] active[k]).0 <= x < active[k].1;
        let a = active[k].0 as int;
        let c = active[k].1 as int;
        lemma_entry_tally(active, k);
        let i = lemma_live_some(bands, ends, s, t, a, c);
        lemma_gone_met(bands, ends, s, t, y, i);
        assert(bands[i].covers(x, y));
    }
    if covered(bands, x, y) {
        let i = choose|i: int| 0 <= i < bands.len() && (#[trigger] bands[i]).covers(x, y);
        let a = bands[i].x1 as int;
        let c = bands[i].x2 as int;
        lemma_gone_met(bands, ends, s, t, y, i);
        assert forall|q: int| 0 <= q < bands.len() && #[trigger] gone(ends, t, q) implies q < s by {
            lemma_gone_met(bands, ends, s, t, y, q);
            assert(bands[q].valid());
        }
        lemma_live_positive(bands, ends, s, t, i);
        let k = lemma_tally_entry(active, a, c);
        assert(active[k].0 <= x < active[k].1);
    }
}

proof fn lemma_live_some(
    bands: Seq<IntRect>,
    ends: Seq<EndEvent>,
    s: int,
    t: int,
    a: int,
    c: int,
) -> (i: int)
    requires
        live(bands, ends, s, t, a, c) > 0,
    ensures
        0 <= i < bands.len(),
        bands[i].x1 == a,
        bands[i].x2 == c,
        i < s,
        !gone(ends, t, i),
{
    lemma_sum_positive(indices(bands.len()), live_term(bands, ends, s, t, a, c))
}

proof fn lemma_live_positive(
    bands: Seq<IntRect>,
    ends: Seq<EndEvent>,
    s: int,
    t: int,
    i: int,
)
    requires
        0 <= i < bands.len(),
        i < s,
        !gone(ends, t, i),
        forall|q: int| 0 <= q < bands.len() && #[trigger] gone(ends, t, q) ==> q < s,
    ensures
        live(bands, ends, s, t, bands[i].x1 as int, bands[i].x2 as int) > 0,
{
    let a = bands[i].x1 as int;
    let c = bands[i].x2 as int;
    let idx = indices(bands.len());
    let f = live_term(bands, ends, s, t, a, c);
    assert forall|q: int| 0 <= q < idx.len() implies f(#[trigger] idx[q]) >= 0 by {
        assert(idx[q] == q);
    }
    lemma_sum_bounds_term(idx, f, i);
    assert(idx[i] == i);
}

/// The cells that the rectangles cover.
pub open spec fn region(rectangles: Seq<IntRect>) -> Region {
    |x: int, y: int| covered(rectangles, x, y)
}

pub open spec fn lowest(e: Edge) -> int {
    if e.start.y > e.end.y {
        e.start.y as int
    } else {
        e.end.y as int
    }
}

/// Horizontal boundaries are drawn down to `line`, vertical ones down to
/// `since`.
spec fn drawn(edges: Seq<Edge>, f: Region, line: int, since: int) -> bool {
    &&& forall|i: int|
        0 <= i < edges.len() ==> borders(#[trigger] edges[i], f) && directed(edges[i]) && sharp(
            edges[i],
            f,
        ) && lowest(edges[i]) <= line
    &&& in_sweep_order(edges)
    &&& forall|x: int, y: int| #[trigger]
        ring_h(edges, x, y) == if y <= line {
            step_h(f, x, y)
        } else {
            0
        }
    &&& forall|x: int, y: int| #[trigger]
        ring_v(edges, x, y) == if y < since {
            step_v(f, x, y)
        } else {
            0
        }
}

/// From the intervals' ends rise the sides of the band between two lines.
spec fn band_sides(
    edges: Seq<Edge>,
    cover: Seq<(i32, i32)>,
    n: int,
    top: i32,
    bottom: i32,
) -> bool {
    &&& forall|i: int|
        0 <= i < edges.len() ==> {
            let e = #[trigger] edges[i];
            &&& directed(e)
            &&& e.start.x == e.end.x
            &&& lowest(e) == bottom
            &&& forall|x: int, y: int|
                #[trigger] vseg(e, x, y) != 0 ==> top <= y < bottom && vseg(e, x, y) == ind(
                    in_cover(cover, x - 1),
                ) - ind(in_cover(cover, x))
        }
    &&& forall|x: int, y: int| #[trigger]
        ring_v(edges, x, y) == if top <= y < bottom {
            ind(in_first(cover, n, x - 1)) - ind(in_first(cover, n, x))
        } else {
            0
        }
}

/// Column `x` lies in one of the first `n` intervals.
spec fn in_first(c: Seq<(i32, i32)>, n: int, x: int) -> bool {
    exists|i: int| 0 <= i < n && (#[trigger] c[i]).0 <= x < c[i].1
}

proof fn lemma_in_next(c: Seq<(i32, i32)>, n: int, x: int)
    requires
        separated(c),
        0 <= n < c.len(),
    ensures
        ind(in_first(c, n + 1, x)) == ind(in_first(c, n, x)) + ind(c[n].0 <= x < c[n].1),
{
    if in_first(c, n + 1, x) {
        let i = choose|i: int| 0 <= i < n + 1 && (#[trigger] c[i]).0 <= x < c[i].1;
        if i < n {
            assert(in_first(c, n, x));
            assert(c[i].1 < c[n].0);
        }
    }
    if in_first(c, n, x) {
        let i = choose|i: int| 0 <= i < n && (#[trigger] c[i]).0 <= x < c[i].1;
        assert(c[i].0 <= x < c[i].1);
        assert(in_first(c, n + 1, x));
        assert(c[i].1 < c[n].0);
    }
    if c[n].0 <= x < c[n].1 {
        assert(in_first(c, n + 1, x));
    }
}

/// Draws the sides of the band between two lines. Clockwise outer boundaries
/// and counter-clockwise holes keep the filled area on the right side of every
/// directed edge.
fn add_vertical_edges(
    cover: &Vec<(i32, i32)>,
    top: i32,
    bottom: i32,
    edges: &mut Vec<Edge>,
)
    requires
        separated(cover@),
        cover@.len() > 0 ==> top < bottom,
    ensures
        final(edges)@.len() >= old(edges)@.len(),
        final(edges)@.subrange(0, old(edges)@.len() as int) == old(edges)@,
        band_sides(
            final(edges)@.subrange(old(edges)@.len() as int, final(edges)@.len() as int),
            cover@,
            cover@.len() as int,
            top,
            bottom,
        ),
{
    let ghost first = edges@;
    let ghost mut new = Seq::<Edge>::empty();
    proof {
        assert(edges@ =~= first + new);
    }
    let mut next: usize = 0;
    while next < cover.len()
        invariant
            next <= cover@.len(),
            separated(cover@),
            cover@.len() > 0 ==> top < bottom,
            edges@ == first + new,
            band_sides(new, cover@, next as int, top, bottom),
        decreases cover@.len() - next,
    {
        let interval = cover[next];
        let x1: i32 = interval.0;
        let x2: i32 = interval.1;
        let up = Edge::new(Coord { x: x1, y: bottom }, Coord { x: x1, y: top });
        let down = Edge::new(Coord { x: x2, y: top }, Coord { x: x2, y: bottom });
        edges.push(up);
        edges.push(down);
        proof {
            lemma_side_pair(new, cover@, next as int, top, bottom, up, down);
            new = new.push(up).push(down);
            assert(edges@ =~= first + new);
        }
        next = next + 1;
    }
    proof {
        assert(edges@.subrange(0, first.len() as int) =~= first);
        assert(edges@.subrange(first.len() as int, edges@.len() as int) =~= new);
    }
}

proof fn lemma_side_pair(
    new: Seq<Edge>,
    cover: Seq<(i32, i32)>,
    n: int,
    top: i32,
    bottom: i32,
    up: Edge,
    down: Edge,
)
    requires
        separated(cover),
        0 <= n < cover.len(),
        top < bottom,
        band_sides(new, cover, n, top, bottom),
        directed(up),
        directed(down),
        up.start == (Coord { x: cover[n].0, y: bottom }),
        up.end == (Coord { x: cover[n].0, y: top }),
        down.start == (Coord { x: cover[n].1, y: top }),
        down.end == (Coord { x: cover[n].1, y: bottom }),
    ensures
        band_sides(new.push(up).push(down), cover, n + 1, top, bottom),
{
    let a = cover[n].0 as int;
    let c = cover[n].1 as int;
    assert(a < c);
    let all = new.push(up).push(down);
    assert(in_cover(cover, a) && in_cover(cover, c - 1)) by {
        assert(cover[n].0 <= a < cover[n].1);
        assert(cover[n].0 <= c - 1 < cover[n].1);
    }
    assert(!in_cover(cover, a - 1) && !in_cover(cover, c)) by {
        assert forall|i: int| 0 <= i < cover.len() implies !((#[trigger] cover[i]).0 <= a - 1
            < cover[i].1) && !(cover[i].0 <= c < cover[i].1) by {
            if i < n {
                assert(cover[i].1 < cover[n].0);
            } else if i > n {
                assert(cover[n].1 < cover[i].0);
            }
        }
    }
    assert forall|i: int| 0 <= i < all.len() implies {
        let e = #[trigger] all[i];
        &&& directed(e)
        &&& e.start.x == e.end.x
        &&& lowest(e) == bottom
        &&& forall|x: int, y: int|
            #[trigger] vseg(e, x, y) != 0 ==> top <= y < bottom && vseg(e, x, y) == ind(
                in_cover(cover, x - 1),
            ) - ind(in_cover(cover, x))
    } by {
        if i < new.len() {
            assert(all[i] == new[i]);
        }
    }
    assert forall|x: int, y: int| #[trigger]
        ring_v(all, x, y) == if top <= y < bottom {
            ind(in_first(cover, n + 1, x - 1)) - ind(in_first(cover, n + 1, x))
        } else {
            0
        } by {
        let g = |e: Edge| vseg(e, x, y);
        lemma_sum_push(new, up, g);
        lemma_sum_push(new.push(up), down, g);
        assert(ring_v(new, x, y) == if top <= y < bottom {
            ind(in_first(cover, n, x - 1)) - ind(in_first(cover, n, x))
        } else {
            0
        });
        lemma_in_next(cover, n, x);
        lemma_in_next(cover, n, x - 1);
    }
}

/// Where one of the rows beside a line changes, so does the region.
proof fn lemma_row_breaks(
    f: Region,
    above: Seq<(i32, i32)>,
    below: Seq<(i32, i32)>,
    p: Coord,
)
    requires
        row_breaks(above, below, p.x as int),
        forall|x: int| #[trigger] f(x, p.y - 1) == in_cover(above, x),
        forall|x: int| #[trigger] f(x, p.y as int) == in_cover(below, x),
    ensures
        breaks_at(f, p),
{
    reveal(row_breaks);
    assert(f(p.x as int, p.y - 1) == in_cover(above, p.x as int));
    assert(f(p.x - 1, p.y - 1) == in_cover(above, p.x - 1));
    assert(f(p.x as int, p.y as int) == in_cover(below, p.x as int));
    assert(f(p.x - 1, p.y as int) == in_cover(below, p.x - 1));
}

/// One more band and the line below it.
proof fn lemma_band_drawn(
    edges: Seq<Edge>,
    sides: Seq<Edge>,
    across: Seq<Edge>,
    f: Region,
    above: Seq<(i32, i32)>,
    below: Seq<(i32, i32)>,
    line: int,
    since: int,
    top: i32,
    y: i32,
)
    requires
        drawn(edges, f, line, since),
        since <= line < y,
        above.len() > 0 ==> top == since,
        band_sides(sides, above, above.len() as int, top, y),
        line_edges(across, y, above, below),
        forall|x: int, r: int| since <= r < y ==> #[trigger] f(x, r) == in_cover(above, x),
        forall|x: int| #[trigger] f(x, y as int) == in_cover(below, x),
    ensures
        drawn(edges + sides + across, f, y as int, y as int),
{
    let all = edges + sides + across;
    let n = edges.len() as int;
    let m = n + sides.len();
    assert forall|i: int| 0 <= i < all.len() implies borders(#[trigger] all[i], f) && directed(
        all[i],
    ) && sharp(all[i], f) && lowest(all[i]) <= y by {
        let e = all[i];
        if i < n {
            assert(all[i] == edges[i]);
        } else if i < m {
            assert(all[i] == sides[i - n]);
            assert forall|a: int, b: int| #[trigger] vseg(e, a, b) != 0 implies vseg(e, a, b)
                == step_v(f, a, b) by {
                assert(f(a - 1, b) == in_cover(above, a - 1));
                assert(f(a, b) == in_cover(above, a));
            }
        } else {
            assert(all[i] == across[i - m]);
            assert forall|a: int, b: int| #[trigger] hseg(e, a, b) != 0 implies hseg(e, a, b)
                == step_h(f, a, b) by {
                assert(b == y);
                assert(hseg(e, a, y as int) == cover_step(above, below, a));
                assert(f(a, b) == in_cover(below, a));
                assert(f(a, b - 1) == in_cover(above, a));
            }
            lemma_row_breaks(f, above, below, e.start);
            lemma_row_breaks(f, above, below, e.end);
        }
    }
    assert forall|i: int, j: int|
        #![trigger all[i], all[j]]
        0 <= i <= j < all.len() implies comes_before(all[i], all[j]) by {
        if j < n {
            assert(all[i] == edges[i] && all[j] == edges[j]);
        } else if i < n {
            assert(all[i] == edges[i]);
            assert(lowest(edges[i]) <= line);
            if j < m {
                assert(all[j] == sides[j - n]);
            } else {
                assert(all[j] == across[j - m]);
            }
        } else if i < m {
            assert(all[i] == sides[i - n]);
            if j < m {
                assert(all[j] == sides[j - n]);
            } else {
                assert(all[j] == across[j - m]);
            }
        } else {
            assert(all[i] == across[i - m]);
            assert(all[j] == across[j - m]);
        }
    }
    assert forall|a: int, b: int| #[trigger]
        ring_h(all, a, b) == if b <= y {
            step_h(f, a, b)
        } else {
            0
        } by {
        let g = |e: Edge| hseg(e, a, b);
        lemma_sum_append(edges, sides, g);
        lemma_sum_append(edges + sides, across, g);
        assert(ring_h(edges, a, b) == if b <= line {
            step_h(f, a, b)
        } else {
            0
        });
        assert forall|i: int| 0 <= i < sides.len() implies g(#[trigger] sides[i]) == 0 by {
            assert(directed(sides[i]));
        }
        lemma_sum_zero(sides, g);
        if b == y {
            assert(ring_h(across, a, y as int) == cover_step(above, below, a));
            assert(f(a, b) == in_cover(below, a));
            assert(f(a, b - 1) == in_cover(above, a));
        } else {
            lemma_sum_zero(across, g);
            if line < b < y {
                assert(f(a, b) == in_cover(above, a));
                assert(f(a, b - 1) == in_cover(above, a));
            }
        }
    }
    assert forall|a: int, b: int| #[trigger]
        ring_v(all, a, b) == if b < y {
            step_v(f, a, b)
        } else {
            0
        } by {
        let g = |e: Edge| vseg(e, a, b);
        lemma_sum_append(edges, sides, g);
        lemma_sum_append(edges + sides, across, g);
        assert(ring_v(edges, a, b) == if b < since {
            step_v(f, a, b)
        } else {
            0
        });
        assert forall|i: int| 0 <= i < across.len() implies g(#[trigger] across[i]) == 0 by {
            assert(straight(across[i]));
        }
        lemma_sum_zero(across, g);
        assert(ring_v(sides, a, b) == if top <= b < y {
            ind(in_first(above, above.len() as int, a - 1)) - ind(
                in_first(above, above.len() as int, a),
            )
        } else {
            0
        });
        assert(in_first(above, above.len() as int, a) == in_cover(above, a));
        assert(in_first(above, above.len() as int, a - 1) == in_cover(above, a - 1));
        if since <= b < y {
            assert(f(a, b) == in_cover(above, a));
            assert(f(a - 1, b) == in_cover(above, a - 1));
        }
    }
}

/// Between two event lines nothing changes.
proof fn lemma_between(
    bands: Seq<IntRect>,
    ends: Seq<EndEvent>,
    s: int,
    t: int,
    line: int,
    y: int,
    x: int,
    r: int,
)
    requires
        ends_of(ends, bands),
        met(bands, ends, s, t, line),
        line <= r < y,
        s < bands.len() ==> bands[s].y1 >= y,
        forall|i: int, j: int|
            #![trigger bands[i], bands[j]]
            0 <= i < j < bands.len() ==> bands[i].y1 <= bands[j].y1,
        t < ends.len() ==> ends[t].y >= y,
    ensures
        covered(bands, x, r) == covered(bands, x, line),
{
    assert forall|i: int| 0 <= i < bands.len() implies (#[trigger] bands[i]).covers(x, r)
        == bands[i].covers(x, line) by {
        lemma_gone_met(bands, ends, s, t, line, i);
        if i >= s {
            assert(bands[s].y1 <= bands[i].y1);
        }
        assert(gone(ends, ends.len() as int, i));
        let j = choose|j: int| 0 <= j < ends.len() && (#[trigger] ends[j]).index == i;
        if j >= t {
            assert(ends[t].leq(ends[j]) || t == j);
        } else {
            assert(ends[j].y <= line);
        }
    }
    if covered(bands, x, r) {
        let i = choose|i: int| 0 <= i < bands.len() && (#[trigger] bands[i]).covers(x, r);
        assert(bands[i].covers(x, line));
    }
    if covered(bands, x, line) {
        let i = choose|i: int| 0 <= i < bands.len() && (#[trigger] bands[i]).covers(x, line);
        assert(bands[i].covers(x, r));
    }
}

/// A line where nothing changes needs no boundary.
proof fn lemma_line_skipped(edges: Seq<Edge>, f: Region, line: int, y: int, since: int)
    requires
        drawn(edges, f, line, since),
        line <= y,
        forall|x: int, r: int| line < r <= y ==> #[trigger] f(x, r) == f(x, r - 1),
    ensures
        drawn(edges, f, y, since),
{
    assert forall|a: int, b: int| #[trigger]
        ring_h(edges, a, b) == if b <= y {
            step_h(f, a, b)
        } else {
            0
        } by {
        assert(ring_h(edges, a, b) == if b <= line {
            step_h(f, a, b)
        } else {
            0
        });
        if line < b <= y {
            assert(f(a, b) == f(a, b - 1));
        }
    }
}

/// Before the first line there is nothing to draw.
proof fn lemma_nothing_drawn(bands: Seq<IntRect>, line: int)
    requires
        line < i32::MIN,
    ensures
        drawn(Seq::empty(), region(bands), line, line),
        forall|x: int, r: int| r <= line ==> !#[trigger] covered(bands, x, r),
{
    let f = region(bands);
    assert forall|x: int, r: int| r <= line implies !#[trigger] covered(bands, x, r) by {
        if covered(bands, x, r) {
            let i = choose|i: int| 0 <= i < bands.len() && (#[trigger] bands[i]).covers(x, r);
            assert(bands[i].covers(x, r));
        }
    }
    assert forall|a: int, b: int| b <= line implies step_h(f, a, b) == 0 && step_v(f, a, b) == 0 by {
        assert(!covered(bands, a, b) && !covered(bands, a, b - 1) && !covered(bands, a - 1, b));
    }
}

/// Behind the last line nothing is left, so the whole boundary is drawn.
proof fn lemma_all_drawn(
    bands: Seq<IntRect>,
    ends: Seq<EndEvent>,
    edges: Seq<Edge>,
    above: Seq<(i32, i32)>,
    line: int,
    since: int,
)
    requires
        ends_of(ends, bands),
        met(bands, ends, bands.len() as int, ends.len() as int, line),
        drawn(edges, region(bands), line, since),
        separated(above),
        since <= line,
        forall|x: int, r: int|
            since <= r <= line ==> #[trigger] covered(bands, x, r) == in_cover(above, x),
    ensures
        bounds_region(edges, region(bands)),
{
    let f = region(bands);
    assert forall|x: int, r: int| r >= line implies !#[trigger] covered(bands, x, r) by {
        if covered(bands, x, r) {
            let i = choose|i: int| 0 <= i < bands.len() && (#[trigger] bands[i]).covers(x, r);
            lemma_gone_met(bands, ends, bands.len() as int, ends.len() as int, line, i);
            assert(gone(ends, ends.len() as int, i));
        }
    }
    assert forall|x: int| !#[trigger] in_cover(above, x) by {
        assert(covered(bands, x, line) == in_cover(above, x));
    }
    assert forall|x: int, y: int| #[trigger] ring_h(edges, x, y) == step_h(f, x, y) by {
        if y > line {
            assert(!covered(bands, x, y) && !covered(bands, x, y - 1));
        }
    }
    assert forall|x: int, y: int| #[trigger] ring_v(edges, x, y) == step_v(f, x, y) by {
        if y >= since {
            assert(!in_cover(above, x) && !in_cover(above, x - 1));
            assert(!covered(bands, x, y) && !covered(bands, x - 1, y));
        }
    }
}

/// Draws the boundary of the rectangles, which are sorted by their upper sides.
pub fn sweep_edges(bands: &Vec<IntRect>) -> (edges: Vec<Edge>)
    requires
        all_valid(bands@),
        forall|i: int, j: int|
            #![trigger bands@[i], bands@[j]]
            0 <= i < j < bands@.len() ==> bands@[i].y1 <= bands@[j].y1,
    ensures
        bounds_region(edges@, region(bands@)),
        in_sweep_order(edges@),
        forall|i: int| 0 <= i < edges@.len() ==> directed(#[trigger] edges@[i]),
        all_sharp(edges@, region(bands@)),
{
    let ends = list_ends(bands);
    let count: usize = bands.len();
    let mut active: Vec<(i32, i32, usize)> = Vec::new();
    let mut above: Vec<(i32, i32)> = Vec::new();
    let mut below: Vec<(i32, i32)> = Vec::new();
    let mut edges: Vec<Edge> = Vec::new();
    let mut band_start_y: i32 = 0;
    let mut start_index: usize = 0;
    let mut end_index: usize = 0;
    let ghost f = region(bands@);
    let ghost mut line: int = i32::MIN - 1;
    let ghost mut since: int = i32::MIN - 1;
    proof {
        lemma_nothing_drawn(bands@, line);
        assert(edges@ =~= Seq::empty());
        assert forall|a: int, c: int| #[trigger] tally(active@, a, c) == live(
            bands@,
            ends@,
            0,
            0,
            a,
            c,
        ) by {
            lemma_live_none(bands@, ends@, a, c);
        }
        assert forall|x: int, r: int| since <= r <= line implies #[trigger] covered(bands@, x, r)
            == in_cover(above@, x) by {
        }
    }
    while start_index < count || end_index < count
        invariant
            count == bands@.len(),
            all_valid(bands@),
            forall|i: int, j: int|
                #![trigger bands@[i], bands@[j]]
                0 <= i < j < bands@.len() ==> bands@[i].y1 <= bands@[j].y1,
            ends_of(ends@, bands@),
            f == region(bands@),
            met(bands@, ends@, start_index as int, end_index as int, line),
            tallied(active@),
            forall|a: int, c: int| #[trigger]
                tally(active@, a, c) == live(
                    bands@,
                    ends@,
                    start_index as int,
                    end_index as int,
                    a,
                    c,
                ),
            separated(above@),
            since <= line,
            above@.len() > 0 ==> band_start_y == since,
            forall|x: int, r: int|
                since <= r <= line ==> #[trigger] covered(bands@, x, r) == in_cover(above@, x),
            drawn(edges@, f, line, since),
        decreases count - start_index + count - end_index,
    {
        let y: i32 = if start_index < count && end_index < count {
            let starting: i32 = bands[start_index].y1;
            let ending: i32 = ends[end_index].y;
            if starting < ending {
                starting
            } else {
                ending
            }
        } else if start_index < count {
            bands[start_index].y1
        } else {
            ends[end_index].y
        };
        let ghost s0 = start_index as int;
        let ghost t0 = end_index as int;
        proof {
            assert(line < y);
            assert forall|x: int, r: int| line <= r < y implies #[trigger] covered(bands@, x, r)
                == in_cover(above@, x) by {
                lemma_between(bands@, ends@, s0, t0, line, y as int, x, r);
                assert(covered(bands@, x, line) == in_cover(above@, x));
            }
            assert forall|i: int| s0 <= i < bands@.len() implies (#[trigger] bands@[i]).y1 >= y by {
                assert(i == s0 || bands@[s0].y1 <= bands@[i].y1);
            }
            assert forall|j: int| t0 <= j < ends@.len() implies (#[trigger] ends@[j]).y >= y by {
                assert(j == t0 || ends@[t0].leq(ends@[j]));
            }
        }
        while start_index < count && bands[start_index].y1 == y
            invariant
                count == bands@.len(),
                s0 <= start_index <= count,
                forall|i: int| 0 <= i < start_index ==> (#[trigger] bands@[i]).y1 <= y,
                tallied(active@),
                forall|a: int, c: int| #[trigger]
                    tally(active@, a, c) == live(
                        bands@,
                        ends@,
                        start_index as int,
                        end_index as int,
                        a,
                        c,
                    ),
            decreases count - start_index,
        {
            let band = bands[start_index];
            proof {
                lemma_live_bound(
                    bands@,
                    ends@,
                    start_index as int,
                    end_index as int,
                    band.x1 as int,
                    band.x2 as int,
                );
                assert(tally(active@, band.x1 as int, band.x2 as int) < usize::MAX);
            }
            let ghost was = active@;
            add_interval(&mut active, band.x1, band.x2);
            proof {
                assert forall|a: int, c: int| #[trigger] tally(active@, a, c) == live(
                    bands@,
                    ends@,
                    start_index + 1,
                    end_index as int,
                    a,
                    c,
                ) by {
                    lemma_live_start(bands@, ends@, start_index as int, end_index as int, a, c);
                    assert(tally(was, a, c) == live(
                        bands@,
                        ends@,
                        start_index as int,
                        end_index as int,
                        a,
                        c,
                    ));
                }
            }
            start_index = start_index + 1;
        }
        proof {
            assert forall|i: int| start_index <= i < bands@.len() implies (#[trigger] bands@[i]).y1
                > y by {
                assert(bands@[start_index as int].y1 >= y);
                assert(i == start_index || bands@[start_index as int].y1 <= bands@[i].y1);
            }
        }
        while end_index < count && ends[end_index].y == y
            invariant
                count == bands@.len(),
                all_valid(bands@),
                ends_of(ends@, bands@),
                start_index <= count,
                t0 <= end_index <= count,
                forall|i: int| start_index <= i < bands@.len() ==> (#[trigger] bands@[i]).y1 > y,
                forall|j: int| 0 <= j < end_index ==> (#[trigger] ends@[j]).y <= y,
                tallied(active@),
                forall|a: int, c: int| #[trigger]
                    tally(active@, a, c) == live(
                        bands@,
                        ends@,
                        start_index as int,
                        end_index as int,
                        a,
                        c,
                    ),
            decreases count - end_index,
        {
            let index: usize = ends[end_index].index;
            let band = bands[index];
            let ghost t = end_index as int;
            let ghost was = active@;
            proof {
                assert(bands@[index as int].valid());
                assert forall|q: int| 0 <= q < bands@.len() && #[trigger] gone(ends@, t, q) implies q
                    < start_index by {
                    let j = choose|j: int| 0 <= j < t && (#[trigger] ends@[j]).index == q;
                    assert(ends@[j].y <= y);
                    assert(bands@[q].valid());
                }
                if gone(ends@, t, index as int) {
                    let j = choose|j: int| 0 <= j < t && (#[trigger] ends@[j]).index == index;
                    assert(ends@[j].index != ends@[t].index);
                }
                lemma_live_positive(bands@, ends@, start_index as int, t, index as int);
                assert(tally(active@, band.x1 as int, band.x2 as int) > 0);
            }
            remove_interval(&mut active, band.x1, band.x2);
            proof {
                assert forall|a: int, c: int| #[trigger] tally(active@, a, c) == live(
                    bands@,
                    ends@,
                    start_index as int,
                    t + 1,
                    a,
                    c,
                ) by {
                    lemma_live_end(bands@, ends@, start_index as int, t, a, c);
                    assert(tally(was, a, c) == live(bands@, ends@, start_index as int, t, a, c));
                }
            }
            end_index = end_index + 1;
        }
        let ghost s = start_index as int;
        let ghost t = end_index as int;
        proof {
            assert forall|j: int| t <= j < ends@.len() implies (#[trigger] ends@[j]).y > y by {
                assert(ends@[t].y >= y);
                assert(j == t || ends@[t].leq(ends@[j]));
            }
            assert(met(bands@, ends@, s, t, y as int));
            assert forall|k: int| 0 <= k < active@.len() implies (#[trigger] active@[k]).0
                < active@[k].1 by {
                lemma_entry_tally(active@, k);
                let i = lemma_live_some(
                    bands@,
                    ends@,
                    s,
                    t,
                    active@[k].0 as int,
                    active@[k].1 as int,
                );
                assert(bands@[i].valid());
            }
        }
        merge_active(active.as_slice(), &mut below);
        proof {
            assert forall|x: int| #[trigger] in_cover(below@, x) == covered(bands@, x, y as int) by {
                lemma_live_row(bands@, ends@, s, t, y as int, active@, x);
            }
        }
        if same_intervals(&below, &above) {
            proof {
                assert forall|x: int, r: int| line < r <= y implies #[trigger] f(x, r) == f(
                    x,
                    r - 1,
                ) by {
                    assert(covered(bands@, x, r - 1) == in_cover(above@, x));
                    assert(in_cover(below@, x) == covered(bands@, x, y as int));
                    if r < y {
                        assert(covered(bands@, x, r) == in_cover(above@, x));
                    }
                }
                lemma_line_skipped(edges@, f, line, y as int, since);
                assert forall|x: int, r: int| since <= r <= y implies #[trigger] covered(bands@, x, r)
                    == in_cover(above@, x) by {
                    assert(in_cover(below@, x) == covered(bands@, x, y as int));
                }
                line = y as int;
            }
        } else {
            let ghost before = edges@;
            add_vertical_edges(&above, band_start_y, y, &mut edges);
            let ghost middle = edges@;
            add_horizontal_edges(y, &above, &below, &mut edges);
            proof {
                let sides = middle.subrange(before.len() as int, middle.len() as int);
                let across = edges@.subrange(middle.len() as int, edges@.len() as int);
                assert(middle =~= before + sides);
                assert(edges@ =~= before + sides + across);
                assert forall|x: int, r: int| since <= r < y implies #[trigger] f(x, r) == in_cover(
                    above@,
                    x,
                ) by {
                    assert(covered(bands@, x, r) == in_cover(above@, x));
                }
                assert forall|x: int| #[trigger] f(x, y as int) == in_cover(below@, x) by {
                    assert(in_cover(below@, x) == covered(bands@, x, y as int));
                }
                lemma_band_drawn(
                    before,
                    sides,
                    across,
                    f,
                    above@,
                    below@,
                    line,
                    since,
                    band_start_y,
                    y,
                );
                line = y as int;
                since = y as int;
            }
            std::mem::swap(&mut above, &mut below);
            band_start_y = y;
            proof {
                assert forall|x: int, r: int| since <= r <= line implies #[trigger] covered(
                    bands@,
                    x,
                    r,
                ) == in_cover(above@, x) by {
                }
            }
        }
    }
    proof {
        lemma_all_drawn(bands@, ends@, edges@, above@, line, since);
    }
    edges
}

} // verus!
