//! The pyramid of tiles: which of them are made, and in which order they are
//! written.

use vstd::prelude::*;

use vstd::arithmetic::power2::{lemma2_to64, lemma_pow2_adds, pow2};

use crate::sort::{ascending, lemma_same_elements, sort, Ordered};

verus! {

/// The place of a tile: its zoom, its column and its row.
#[derive(Clone, Copy, Debug, PartialEq, Eq, Structural)]
pub struct Zxy {
    pub z: u8,
    pub x: u32,
    pub y: u32,
}

/// The place of a tile in numbers without bounds.
pub struct Place {
    pub z: int,
    pub x: int,
    pub y: int,
}

impl View for Zxy {
    type V = Place;

    open spec fn view(&self) -> Place {
        Place { z: self.z as int, x: self.x as int, y: self.y as int }
    }
}

impl Place {
    /// The tile that covers everything.
    pub open spec fn root() -> Place {
        Place { z: 0, x: 0, y: 0 }
    }

    /// The four tiles that a tile is cut into, row by row.
    pub open spec fn child(self, k: int) -> Place {
        Place { z: self.z + 1, x: 2 * self.x + k % 2, y: 2 * self.y + k / 2 }
    }

    /// The tile that a tile is cut out of.
    pub open spec fn parent(self) -> Place {
        Place { z: self.z - 1, x: self.x / 2, y: self.y / 2 }
    }

    /// The tile lies in the other.
    pub open spec fn within(self, other: Place) -> bool
        decreases self.z - other.z,
    {
        self == other || (self.z > other.z && self.parent().within(other))
    }

    /// The tile, and every tile above it up to another, holds data.
    pub open spec fn is_fed(self, top: Place, holds: spec_fn(Place) -> bool) -> bool
        decreases self.z - top.z,
    {
        holds(self) && (self == top || (self.z > top.z && self.parent().is_fed(top, holds)))
    }
}

/// The tiles that are made of a tile and those below it. Nothing is made of a
/// tile without data, nor below it.
pub open spec fn tiles_below(
    holds: spec_fn(Place) -> bool,
    min_zoom: int,
    max_zoom: int,
    tile: Place,
) -> Seq<Place>
    decreases max_zoom - tile.z,
{
    if tile.z > max_zoom || !holds(tile) {
        Seq::empty()
    } else {
        let own = if tile.z >= min_zoom {
            seq![tile]
        } else {
            Seq::empty()
        };
        if tile.z < max_zoom {
            own + tiles_below(holds, min_zoom, max_zoom, tile.child(0)) + tiles_below(
                holds,
                min_zoom,
                max_zoom,
                tile.child(1),
            ) + tiles_below(holds, min_zoom, max_zoom, tile.child(2)) + tiles_below(
                holds,
                min_zoom,
                max_zoom,
                tile.child(3),
            )
        } else {
            own
        }
    }
}

/// A walk over the pyramid. It asks of one tile after another whether there is
/// any data in it.
#[derive(Debug)]
pub struct Pyramid {
    pub pending: Vec<Zxy>,
    pub min_zoom: u8,
    pub max_zoom: u8,
}

/// The tiles that the pending ones give, the last of them first.
pub open spec fn outstanding(
    pending: Seq<Zxy>,
    holds: spec_fn(Place) -> bool,
    min_zoom: int,
    max_zoom: int,
) -> Seq<Place>
    decreases pending.len(),
{
    if pending.len() == 0 {
        Seq::empty()
    } else {
        tiles_below(holds, min_zoom, max_zoom, pending.last()@) + outstanding(
            pending.drop_last(),
            holds,
            min_zoom,
            max_zoom,
        )
    }
}

impl Pyramid {
    /// The pending tiles are tiles of the pyramid.
    pub open spec fn wf(&self) -> bool {
        &&& self.max_zoom <= 32
        &&& forall|i: int|
            0 <= i < self.pending@.len() ==> {
                let t = #[trigger] self.pending@[i];
                t.z <= self.max_zoom && t.x < pow2(t.z as nat) && t.y < pow2(t.z as nat)
            }
    }

    /// The tiles that are still to be made.
    pub open spec fn outstanding(&self, holds: spec_fn(Place) -> bool) -> Seq<Place> {
        outstanding(self.pending@, holds, self.min_zoom as int, self.max_zoom as int)
    }

    pub fn new(min_zoom: u8, max_zoom: u8) -> (pyramid: Pyramid)
        requires
            max_zoom <= 32,
        ensures
            pyramid.wf(),
            pyramid.min_zoom == min_zoom,
            pyramid.max_zoom == max_zoom,
            forall|holds: spec_fn(Place) -> bool| #[trigger]
                pyramid.outstanding(holds) == tiles_below(
                    holds,
                    min_zoom as int,
                    max_zoom as int,
                    Place::root(),
                ),
    {
        let mut pending: Vec<Zxy> = Vec::new();
        let root = Zxy { z: 0, x: 0, y: 0 };
        pending.push(root);
        let pyramid = Pyramid { pending, min_zoom, max_zoom };
        proof {
            lemma2_to64();
            assert forall|holds: spec_fn(Place) -> bool| #[trigger]
                pyramid.outstanding(holds) == tiles_below(
                    holds,
                    min_zoom as int,
                    max_zoom as int,
                    Place::root(),
                ) by {
                assert(pyramid.pending@.drop_last() =~= Seq::empty());
                assert(root@ == Place::root());
                assert(outstanding(
                    pyramid.pending@.drop_last(),
                    holds,
                    min_zoom as int,
                    max_zoom as int,
                ) =~= Seq::empty());
            }
        }
        pyramid
    }

    /// The tile that is asked about, unless the walk is over.
    pub fn next(&self) -> (tile: Option<Zxy>)
        ensures
            match tile {
                Some(t) => self.pending@.len() > 0 && t == self.pending@.last(),
                None => self.pending@.len() == 0,
            },
    {
        if self.pending.len() == 0 {
            return None;
        }
        Some(self.pending[self.pending.len() - 1])
    }

    /// Takes the answer whether the tile holds any data, and says whether it is
    /// made.
    pub fn answer(&mut self, has_source_data: bool) -> (emit: bool)
        requires
            old(self).wf(),
            old(self).pending@.len() > 0,
        ensures
            final(self).wf(),
            final(self).min_zoom == old(self).min_zoom,
            final(self).max_zoom == old(self).max_zoom,
            emit == (has_source_data && old(self).pending@.last().z >= old(self).min_zoom),
            forall|holds: spec_fn(Place) -> bool|
                holds(old(self).pending@.last()@) == has_source_data ==> old(self).outstanding(holds)
                    == if emit {
                    seq![old(self).pending@.last()@] + #[trigger] final(self).outstanding(holds)
                } else {
                    final(self).outstanding(holds)
                },
    {
        let ghost before = self.pending@;
        let ghost tile = before.last();
        let ghost low = self.min_zoom as int;
        let ghost high = self.max_zoom as int;
        if let Some(t) = self.pending.pop() {
            let ghost rest = self.pending@;
            proof {
                assert(rest =~= before.drop_last());
                assert(before[before.len() - 1] == t);
            }
            let emit = has_source_data && t.z >= self.min_zoom;
            if has_source_data && t.z < self.max_zoom {
                proof {
                    lemma_pow2_adds(t.z as nat, 1);
                    lemma2_to64();
                    lemma_pow2_bound(t.z as nat);
                }
                let z: u8 = t.z + 1;
                let x: u32 = t.x * 2;
                let y: u32 = t.y * 2;
                self.pending.push(Zxy { z, x: x + 1, y: y + 1 });
                self.pending.push(Zxy { z, x, y: y + 1 });
                self.pending.push(Zxy { z, x: x + 1, y });
                self.pending.push(Zxy { z, x, y });
                proof {
                    let now = self.pending@;
                    assert forall|holds: spec_fn(Place) -> bool|
                        holds(tile@) == has_source_data implies outstanding(before, holds, low, high)
                        == if emit {
                        seq![tile@] + #[trigger] outstanding(now, holds, low, high)
                    } else {
                        outstanding(now, holds, low, high)
                    } by {
                        let c0 = rest.push(Zxy { z, x: (x + 1) as u32, y: (y + 1) as u32 });
                        let c1 = c0.push(Zxy { z, x, y: (y + 1) as u32 });
                        let c2 = c1.push(Zxy { z, x: (x + 1) as u32, y });
                        assert(now =~= c2.push(Zxy { z, x, y }));
                        assert(now.drop_last() =~= c2);
                        assert(c2.drop_last() =~= c1);
                        assert(c1.drop_last() =~= c0);
                        assert(c0.drop_last() =~= rest);
                        assert(now.last()@ == tile@.child(0));
                        assert(c2.last()@ == tile@.child(1));
                        assert(c1.last()@ == tile@.child(2));
                        assert(c0.last()@ == tile@.child(3));
                        let r = outstanding(rest, holds, low, high);
                        let a = tiles_below(holds, low, high, tile@.child(0));
                        let b = tiles_below(holds, low, high, tile@.child(1));
                        let c = tiles_below(holds, low, high, tile@.child(2));
                        let d = tiles_below(holds, low, high, tile@.child(3));
                        assert(outstanding(c0, holds, low, high) == d + r);
                        assert(outstanding(c1, holds, low, high) == c + (d + r));
                        assert(outstanding(c2, holds, low, high) == b + (c + (d + r)));
                        assert(outstanding(now, holds, low, high) == a + (b + (c + (d + r))));
                        let own = if tile.z >= low {
                            seq![tile@]
                        } else {
                            Seq::empty()
                        };
                        assert(outstanding(before, holds, low, high) =~= own + a + b + c + d + r);
                        assert(own + a + b + c + d + r =~= own + (a + (b + (c + (d + r)))));
                        if !emit {
                            assert(own + (a + (b + (c + (d + r)))) =~= a + (b + (c + (d + r))));
                        }
                    }
                }
            } else {
                proof {
                    assert forall|holds: spec_fn(Place) -> bool|
                        holds(tile@) == has_source_data implies outstanding(before, holds, low, high)
                        == if emit {
                        seq![tile@] + #[trigger] outstanding(rest, holds, low, high)
                    } else {
                        outstanding(rest, holds, low, high)
                    } by {
                        let r = outstanding(rest, holds, low, high);
                        assert(Seq::<Place>::empty() + r =~= r);
                    }
                }
            }
            emit
        } else {
            false
        }
    }
}

proof fn lemma_pow2_bound(z: nat)
    requires
        z < 32,
    ensures
        pow2(z) <= 0x8000_0000,
{
    lemma2_to64();
    if z < 31 {
        vstd::arithmetic::power2::lemma_pow2_strictly_increases(z, 31);
    }
}

/// The tiles of the whole pyramid are those from the lowest zoom to the highest
/// that hold data, as do all the tiles above them, and each is made once.
pub proof fn lemma_pyramid(
    holds: spec_fn(Place) -> bool,
    min_zoom: int,
    max_zoom: int,
    top: Place,
)
    ensures
        forall|t: Place| #[trigger]
            tiles_below(holds, min_zoom, max_zoom, top).contains(t) <==> {
                &&& min_zoom <= t.z <= max_zoom
                &&& t.within(top)
                &&& t.is_fed(top, holds)
            },
        tiles_below(holds, min_zoom, max_zoom, top).no_duplicates(),
    decreases max_zoom - top.z,
{
    let all = tiles_below(holds, min_zoom, max_zoom, top);
    if top.z > max_zoom || !holds(top) {
        assert forall|t: Place| #[trigger] all.contains(t) <==> {
            &&& min_zoom <= t.z <= max_zoom
            &&& t.within(top)
            &&& t.is_fed(top, holds)
        } by {
            if t.within(top) {
                lemma_within_zoom(t, top);
                if t.is_fed(top, holds) {
                    lemma_fed_top(t, top, holds);
                }
            }
        }
    } else {
        let own = if top.z >= min_zoom {
            seq![top]
        } else {
            Seq::empty()
        };
        if top.z == max_zoom {
            assert forall|t: Place| #[trigger] all.contains(t) <==> {
                &&& min_zoom <= t.z <= max_zoom
                &&& t.within(top)
                &&& t.is_fed(top, holds)
            } by {
                if own.len() > 0 {
                    assert(own[0] == top);
                }
                if t.within(top) {
                    lemma_within_zoom(t, top);
                }
            }
        } else {
            lemma_pyramid_split(holds, min_zoom, max_zoom, top);
        }
    }
}

proof fn lemma_pyramid_split(
    holds: spec_fn(Place) -> bool,
    min_zoom: int,
    max_zoom: int,
    top: Place,
)
    requires
        top.z < max_zoom,
        holds(top),
    ensures
        forall|t: Place| #[trigger]
            tiles_below(holds, min_zoom, max_zoom, top).contains(t) <==> {
                &&& min_zoom <= t.z <= max_zoom
                &&& t.within(top)
                &&& t.is_fed(top, holds)
            },
        tiles_below(holds, min_zoom, max_zoom, top).no_duplicates(),
    decreases max_zoom - top.z, 0int,
{
    let all = tiles_below(holds, min_zoom, max_zoom, top);
    let own = if top.z >= min_zoom {
        seq![top]
    } else {
        Seq::empty()
    };
    let a = tiles_below(holds, min_zoom, max_zoom, top.child(0));
    let b = tiles_below(holds, min_zoom, max_zoom, top.child(1));
    let c = tiles_below(holds, min_zoom, max_zoom, top.child(2));
    let d = tiles_below(holds, min_zoom, max_zoom, top.child(3));
    lemma_pyramid(holds, min_zoom, max_zoom, top.child(0));
    lemma_pyramid(holds, min_zoom, max_zoom, top.child(1));
    lemma_pyramid(holds, min_zoom, max_zoom, top.child(2));
    lemma_pyramid(holds, min_zoom, max_zoom, top.child(3));
    assert forall|t: Place| #[trigger] all.contains(t) <==> {
        &&& min_zoom <= t.z <= max_zoom
        &&& t.within(top)
        &&& t.is_fed(top, holds)
    } by {
        lemma_five(own, a, b, c, d, t);
        if own.len() > 0 {
            assert(own[0] == top);
        }
        lemma_child_of(t, top, holds);
        if t.within(top) {
            lemma_within_zoom(t, top);
        }
    }
    assert forall|t: Place| own.contains(t) implies !a.contains(t) && !b.contains(t)
        && !c.contains(t) && !d.contains(t) by {
        if a.contains(t) {
            lemma_within_zoom(t, top.child(0));
        }
        if b.contains(t) {
            lemma_within_zoom(t, top.child(1));
        }
        if c.contains(t) {
            lemma_within_zoom(t, top.child(2));
        }
        if d.contains(t) {
            lemma_within_zoom(t, top.child(3));
        }
    }
    lemma_apart(holds, min_zoom, max_zoom, top, 0, 1);
    lemma_apart(holds, min_zoom, max_zoom, top, 0, 2);
    lemma_apart(holds, min_zoom, max_zoom, top, 0, 3);
    lemma_apart(holds, min_zoom, max_zoom, top, 1, 2);
    lemma_apart(holds, min_zoom, max_zoom, top, 1, 3);
    lemma_apart(holds, min_zoom, max_zoom, top, 2, 3);
    lemma_joined_once(own, a);
    lemma_contains_joined(own, a);
    lemma_joined_once(own + a, b);
    lemma_contains_joined(own + a, b);
    lemma_joined_once(own + a + b, c);
    lemma_contains_joined(own + a + b, c);
    lemma_joined_once(own + a + b + c, d);
}

/// Different parts of a tile give different tiles.
proof fn lemma_apart(
    holds: spec_fn(Place) -> bool,
    min_zoom: int,
    max_zoom: int,
    top: Place,
    i: int,
    j: int,
)
    requires
        0 <= i < j < 4,
        forall|t: Place| #[trigger]
            tiles_below(holds, min_zoom, max_zoom, top.child(i)).contains(t) ==> t.within(
                top.child(i),
            ),
        forall|t: Place| #[trigger]
            tiles_below(holds, min_zoom, max_zoom, top.child(j)).contains(t) ==> t.within(
                top.child(j),
            ),
    ensures
        forall|t: Place| #[trigger]
            tiles_below(holds, min_zoom, max_zoom, top.child(i)).contains(t) ==> !tiles_below(
                holds,
                min_zoom,
                max_zoom,
                top.child(j),
            ).contains(t),
{
    assert forall|t: Place| #[trigger]
        tiles_below(holds, min_zoom, max_zoom, top.child(i)).contains(t) implies !tiles_below(
        holds,
        min_zoom,
        max_zoom,
        top.child(j),
    ).contains(t) by {
        if tiles_below(holds, min_zoom, max_zoom, top.child(j)).contains(t) {
            lemma_within_one(t, top.child(i), top.child(j));
            assert(top.child(i).x == top.child(j).x && top.child(i).y == top.child(j).y);
        }
    }
}

proof fn lemma_contains_joined<A>(a: Seq<A>, b: Seq<A>)
    ensures
        forall|x: A| #[trigger] (a + b).contains(x) <==> a.contains(x) || b.contains(x),
{
    assert forall|x: A| #[trigger] (a + b).contains(x) <==> a.contains(x) || b.contains(x) by {
        if a.contains(x) {
            let i = choose|i: int| 0 <= i < a.len() && a[i] == x;
            assert((a + b)[i] == x);
        }
        if b.contains(x) {
            let i = choose|i: int| 0 <= i < b.len() && b[i] == x;
            assert((a + b)[a.len() + i] == x);
        }
        if (a + b).contains(x) {
            let i = choose|i: int| 0 <= i < (a + b).len() && (a + b)[i] == x;
            if i < a.len() {
                assert(a[i] == x);
            } else {
                assert(b[i - a.len()] == x);
            }
        }
    }
}

proof fn lemma_five<A>(own: Seq<A>, a: Seq<A>, b: Seq<A>, c: Seq<A>, d: Seq<A>, x: A)
    ensures
        (own + a + b + c + d).contains(x) <==> own.contains(x) || a.contains(x) || b.contains(x)
            || c.contains(x) || d.contains(x),
{
    lemma_contains_joined(own, a);
    lemma_contains_joined(own + a, b);
    lemma_contains_joined(own + a + b, c);
    lemma_contains_joined(own + a + b + c, d);
}

proof fn lemma_joined_once<A>(a: Seq<A>, b: Seq<A>)
    requires
        a.no_duplicates(),
        b.no_duplicates(),
        forall|x: A| #[trigger] a.contains(x) ==> !b.contains(x),
    ensures
        (a + b).no_duplicates(),
{
    let s = a + b;
    assert forall|i: int, j: int| 0 <= i < s.len() && 0 <= j < s.len() && i != j implies s[i]
        != s[j] by {
        if i < a.len() && j >= a.len() {
            assert(a.contains(a[i]));
            assert(b.contains(b[j - a.len()]));
        }
        if j < a.len() && i >= a.len() {
            assert(a.contains(a[j]));
            assert(b.contains(b[i - a.len()]));
        }
    }
}

proof fn lemma_within_zoom(t: Place, top: Place)
    requires
        t.within(top),
    ensures
        t.z >= top.z,
        t.z == top.z ==> t == top,
    decreases t.z - top.z,
{
    if t != top {
        lemma_within_zoom(t.parent(), top);
    }
}

proof fn lemma_fed_top(t: Place, top: Place, holds: spec_fn(Place) -> bool)
    requires
        t.is_fed(top, holds),
    ensures
        holds(top),
    decreases t.z - top.z,
{
    if t != top {
        lemma_fed_top(t.parent(), top, holds);
    }
}

/// A tile lies in at most one tile of a zoom.
proof fn lemma_within_one(t: Place, a: Place, b: Place)
    requires
        t.within(a),
        t.within(b),
        a.z == b.z,
    ensures
        a == b,
    decreases t.z - a.z,
{
    if t != a && t != b {
        lemma_within_one(t.parent(), a, b);
    } else {
        lemma_within_zoom(t, a);
        lemma_within_zoom(t, b);
    }
}

/// What lies in a tile, and is not the tile, lies in one of its four parts.
proof fn lemma_child_of(t: Place, top: Place, holds: spec_fn(Place) -> bool)
    ensures
        t.within(top) && t.is_fed(top, holds) <==> (t == top && holds(top)) || (holds(top) && ((t.within(
            top.child(0),
        ) && t.is_fed(top.child(0), holds)) || (t.within(top.child(1)) && t.is_fed(top.child(1), holds))
            || (t.within(top.child(2)) && t.is_fed(top.child(2), holds)) || (t.within(top.child(3))
            && t.is_fed(top.child(3), holds)))),
    decreases t.z - top.z,
{
    reveal_with_fuel(Place::within, 2);
    reveal_with_fuel(Place::is_fed, 2);
    if t.z > top.z + 1 {
        lemma_child_of(t.parent(), top, holds);
    } else if t.z == top.z + 1 {
        let up = t.parent();
        if up == top {
            let k = t.x % 2 + 2 * (t.y % 2);
            assert(t.x == 2 * top.x + t.x % 2 && t.y == 2 * top.y + t.y % 2);
            assert(k % 2 == t.x % 2 && k / 2 == t.y % 2);
            assert(t == top.child(k));
            assert(k == 0 || k == 1 || k == 2 || k == 3);
        } else {
            assert(!up.within(top)) by {
                if up.within(top) {
                    lemma_within_zoom(up, top);
                }
            }
            assert(top.child(0).parent() == top && top.child(1).parent() == top
                && top.child(2).parent() == top && top.child(3).parent() == top);
            assert(t != top.child(0) && t != top.child(1) && t != top.child(2) && t != top.child(
                3,
            ));
        }
    } else {
        if t.within(top) {
            lemma_within_zoom(t, top);
        }
        if t.within(top.child(0)) {
            lemma_within_zoom(t, top.child(0));
        }
        if t.within(top.child(1)) {
            lemma_within_zoom(t, top.child(1));
        }
        if t.within(top.child(2)) {
            lemma_within_zoom(t, top.child(2));
        }
        if t.within(top.child(3)) {
            lemma_within_zoom(t, top.child(3));
        }
    }
}

/// A tile that is ready to be written.
#[derive(Debug)]
pub struct EncodedTile {
    pub zxy: Zxy,
    pub bytes: Vec<u8>,
}

impl Ordered for EncodedTile {
    open spec fn leq(self, other: Self) -> bool {
        ||| self.zxy.z < other.zxy.z
        ||| self.zxy.z == other.zxy.z && self.zxy.x < other.zxy.x
        ||| self.zxy.z == other.zxy.z && self.zxy.x == other.zxy.x && self.zxy.y <= other.zxy.y
    }

    proof fn lemma_total(a: Self, b: Self) {
    }

    proof fn lemma_transitive(a: Self, b: Self, c: Self) {
    }

    fn at_most(&self, other: &Self) -> (r: bool) {
        self.zxy.z < other.zxy.z || (self.zxy.z == other.zxy.z && self.zxy.x < other.zxy.x) || (
        self.zxy.z == other.zxy.z && self.zxy.x == other.zxy.x && self.zxy.y <= other.zxy.y)
    }
}

/// Puts the finished tiles into the order in which they are written: by zoom,
/// column and row.
///
/// Tiles arrive in whatever order the worker threads finish. Writing them like
/// that would put them at different offsets on every run: the archives would
/// hold identical tiles and never match byte for byte, so nothing downstream
/// could cache them, ship a delta of them or sign them.
pub fn order_tiles(tiles: Vec<EncodedTile>) -> (ordered: Vec<EncodedTile>)
    ensures
        ascending(ordered@),
        ordered@.to_multiset() == tiles@.to_multiset(),
        ordered@.len() == tiles@.len(),
{
    sort(tiles)
}

/// Each place occurs once.
pub open spec fn places_differ(tiles: Seq<EncodedTile>) -> bool {
    forall|i: int, j: int|
        #![trigger tiles[i], tiles[j]]
        0 <= i < j < tiles.len() ==> tiles[i].zxy != tiles[j].zxy
}

/// The order of the archive does not depend on the order in which the tiles were
/// finished: tiles of different places can be put in order in one way only.
pub proof fn lemma_one_order(a: Seq<EncodedTile>, b: Seq<EncodedTile>)
    requires
        ascending(a),
        ascending(b),
        a.to_multiset() == b.to_multiset(),
        places_differ(a),
    ensures
        a == b,
    decreases a.len(),
{
    lemma_same_elements(a, b);
    if a.len() > 0 {
        let x = a.last();
        let y = b.last();
        assert(a.contains(a[a.len() - 1]) && b.contains(b[b.len() - 1]));
        assert(b.contains(x) && a.contains(y));
        let i = choose|i: int| 0 <= i < b.len() && b[i] == x;
        let j = choose|j: int| 0 <= j < a.len() && a[j] == y;
        if j < a.len() - 1 {
            assert(a[j].leq(a[a.len() - 1]));
            if i < b.len() - 1 {
                assert(b[i].leq(b[b.len() - 1]));
                assert(x.zxy == y.zxy);
                assert(a[j].zxy != a[a.len() - 1].zxy);
            } else {
                assert(x == y);
            }
        }
        assert(x == y);
        let p = a.drop_last();
        let q = b.drop_last();
        assert(p.push(x) =~= a);
        assert(q.push(x) =~= b);
        p.to_multiset_ensures();
        q.to_multiset_ensures();
        assert(a.to_multiset() =~= p.to_multiset().insert(x));
        assert(b.to_multiset() =~= q.to_multiset().insert(x));
        assert(p.to_multiset() =~= a.to_multiset().remove(x));
        assert(q.to_multiset() =~= b.to_multiset().remove(x));
        assert forall|i: int, j: int| #![trigger p[i], p[j]] 0 <= i < j < p.len() implies p[i].leq(
            p[j],
        ) by {
            assert(a[i].leq(a[j]));
        }
        assert forall|i: int, j: int| #![trigger q[i], q[j]] 0 <= i < j < q.len() implies q[i].leq(
            q[j],
        ) by {
            assert(b[i].leq(b[j]));
        }
        assert forall|i: int, j: int| #![trigger p[i], p[j]] 0 <= i < j < p.len() implies p[i].zxy
            != p[j].zxy by {
            assert(a[i].zxy != a[j].zxy);
        }
        lemma_one_order(p, q);
    } else {
        assert(a =~= b);
    }
}

/// What is written of a tile: its place and its bytes.
pub open spec fn written(tiles: Seq<EncodedTile>) -> Seq<(Zxy, Seq<u8>)> {
    tiles.map_values(|t: EncodedTile| (t.zxy, t.bytes@))
}

/// One run finished the tiles that another did, with the same bytes.
pub open spec fn finished_in(a: Seq<EncodedTile>, b: Seq<EncodedTile>) -> bool {
    forall|i: int| 0 <= i < a.len() ==> written(b).contains((#[trigger] a[i].zxy, a[i].bytes@))
}

/// The archive is a function of its tiles alone: two runs that finish the same tiles,
/// each in whatever order its threads come to it, write the same bytes in the same
/// order.
pub proof fn lemma_same_archive(
    a: Seq<EncodedTile>,
    b: Seq<EncodedTile>,
    p: Seq<EncodedTile>,
    q: Seq<EncodedTile>,
)
    requires
        places_differ(a),
        places_differ(b),
        finished_in(a, b),
        finished_in(b, a),
        ascending(p),
        p.to_multiset() == a.to_multiset(),
        ascending(q),
        q.to_multiset() == b.to_multiset(),
    ensures
        written(p) == written(q),
{
    lemma_sorted_places(a, p);
    lemma_sorted_places(b, q);
    lemma_finished_sorted(a, b, p, q);
    lemma_finished_sorted(b, a, q, p);
    lemma_same_written(p, q, p.len() as int);
    lemma_same_written(q, p, q.len() as int);
    assert(written(p) =~= written(q));
}

proof fn lemma_finished_sorted(
    a: Seq<EncodedTile>,
    b: Seq<EncodedTile>,
    p: Seq<EncodedTile>,
    q: Seq<EncodedTile>,
)
    requires
        finished_in(a, b),
        p.to_multiset() == a.to_multiset(),
        q.to_multiset() == b.to_multiset(),
    ensures
        finished_in(p, q),
{
    lemma_same_elements(p, a);
    lemma_same_elements(q, b);
    assert forall|i: int| 0 <= i < p.len() implies written(q).contains(
        (#[trigger] p[i].zxy, p[i].bytes@),
    ) by {
        assert(p.contains(p[i]));
        let k = choose|k: int| 0 <= k < a.len() && a[k] == p[i];
        assert(written(b).contains((a[k].zxy, a[k].bytes@)));
        let l = choose|l: int|
            0 <= l < written(b).len() && written(b)[l] == (a[k].zxy, a[k].bytes@);
        assert(b.contains(b[l]));
        assert(q.contains(b[l]));
        let h = choose|h: int| 0 <= h < q.len() && q[h] == b[l];
        assert(written(q)[h] == (p[i].zxy, p[i].bytes@));
    }
}

/// Sorting keeps the places apart.
proof fn lemma_sorted_places(a: Seq<EncodedTile>, p: Seq<EncodedTile>)
    requires
        places_differ(a),
        p.to_multiset() == a.to_multiset(),
    ensures
        places_differ(p),
{
    lemma_same_elements(p, a);
    a.to_multiset_ensures();
    p.to_multiset_ensures();
    assert(a.no_duplicates()) by {
        assert forall|i: int, j: int| 0 <= i < a.len() && 0 <= j < a.len() && i != j implies a[i]
            != a[j] by {
            if i < j {
                assert(a[i].zxy != a[j].zxy);
            } else {
                assert(a[j].zxy != a[i].zxy);
            }
        }
    }
    a.lemma_multiset_has_no_duplicates();
    assert(p.no_duplicates()) by {
        assert forall|t: EncodedTile| p.to_multiset().contains(t) implies p.to_multiset().count(t)
            == 1 by {
        }
        p.lemma_multiset_has_no_duplicates_conv();
    }
    assert forall|i: int, j: int|
        #![trigger p[i], p[j]]
        0 <= i < j < p.len() implies p[i].zxy != p[j].zxy by {
        assert(p.contains(p[i]) && p.contains(p[j]));
        let k = choose|k: int| 0 <= k < a.len() && a[k] == p[i];
        let l = choose|l: int| 0 <= l < a.len() && a[l] == p[j];
        assert(k != l);
        if k < l {
            assert(a[k].zxy != a[l].zxy);
        } else {
            assert(a[l].zxy != a[k].zxy);
        }
    }
}

proof fn lemma_same_written(p: Seq<EncodedTile>, q: Seq<EncodedTile>, n: int)
    requires
        ascending(p),
        ascending(q),
        places_differ(p),
        places_differ(q),
        finished_in(p, q),
        finished_in(q, p),
        0 <= n <= p.len(),
    ensures
        n <= q.len(),
        forall|i: int| 0 <= i < n ==> #[trigger] written(p)[i] == written(q)[i],
    decreases n,
{
    if n > 0 {
        lemma_same_written(p, q, n - 1);
        let k = n - 1;
        assert(written(q).contains((p[k].zxy, p[k].bytes@)));
        let l = choose|l: int|
            0 <= l < written(q).len() && written(q)[l] == (p[k].zxy, p[k].bytes@);
        if l < k {
            assert(written(p)[l] == written(q)[l]);
            assert(p[l].zxy != p[k].zxy);
            assert(false);
        }
        if l > k {
            assert(q[k].leq(q[l]) && q[k].zxy != q[l].zxy);
            assert(written(p).contains((q[k].zxy, q[k].bytes@)));
            let h = choose|h: int|
                0 <= h < written(p).len() && written(p)[h] == (q[k].zxy, q[k].bytes@);
            if h < k {
                assert(written(p)[h] == written(q)[h]);
                assert(q[h].zxy != q[k].zxy);
            } else if h > k {
                assert(p[k].leq(p[h]) && p[k].zxy != p[h].zxy);
            }
            assert(false);
        }
    }
}

/// The order of an archive: by zoom, then by column, then by row.
pub proof fn lemma_tile_order(tiles: Seq<EncodedTile>, i: int, j: int)
    requires
        ascending(tiles),
        0 <= i < j < tiles.len(),
    ensures
        tiles[i].zxy.z <= tiles[j].zxy.z,
        tiles[i].zxy.z == tiles[j].zxy.z ==> tiles[i].zxy.x <= tiles[j].zxy.x,
        tiles[i].zxy.z == tiles[j].zxy.z && tiles[i].zxy.x == tiles[j].zxy.x ==> tiles[i].zxy.y
            <= tiles[j].zxy.y,
{
    assert(tiles[i].leq(tiles[j]));
}

} // verus!
