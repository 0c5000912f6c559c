//! Bringing the values of all the bands at one point together.

use vstd::prelude::*;

use vstd::arithmetic::power2::lemma2_to64;
use vstd::seq_lib::group_to_multiset_ensures;

use crate::hilbert::{hilbert, hilbert_number};
use crate::model::{CompactOptI32, PointValue};
use crate::sort::{ascending, lemma_same_elements, sort, Ordered};

verus! {

/// The order of the curve that numbers the points of a base grid.
pub const POINT_ORDER: u8 = 16;

/// A point of the base grid with the values of its bands.
#[derive(Clone, Copy, Debug)]
pub struct TilePoint {
    pub x: u16,
    pub y: u16,
    pub point_power: u8,
    pub values: [CompactOptI32; 4],
}

/// The number of a point.
pub open spec fn point_number(x: u16, y: u16) -> u64 {
    hilbert_number(x as u32, y as u32, POINT_ORDER)
}

/// The value of a band at a point: the last that the first `n` values give it.
pub open spec fn value_at(points: Seq<PointValue>, n: int, x: u16, y: u16, band: int) -> Option<i32>
    decreases n,
{
    if n <= 0 {
        None
    } else {
        let p = points[n - 1];
        if p.x == x && p.y == y && p.band_idx == band {
            Some(p.value)
        } else {
            value_at(points, n - 1, x, y, band)
        }
    }
}

/// The first value at a point, or how many values there are.
pub open spec fn first_at(points: Seq<PointValue>, x: u16, y: u16) -> int
    decreases points.len(),
{
    if points.len() == 0 || (points[0].x == x && points[0].y == y) {
        0
    } else {
        1 + first_at(points.skip(1), x, y)
    }
}

/// The group holds what the values say of its point.
pub open spec fn is_group(group: TilePoint, points: Seq<PointValue>) -> bool {
    &&& first_at(points, group.x, group.y) < points.len()
    &&& group.point_power == points[first_at(points, group.x, group.y)].point_power
    &&& forall|b: int|
        0 <= b < 4 ==> (#[trigger] group.values@[b])@ == value_at(
            points,
            points.len() as int,
            group.x,
            group.y,
            b,
        )
}

/// The point has a group.
pub open spec fn is_grouped(groups: Seq<TilePoint>, x: u16, y: u16) -> bool {
    exists|g: int| 0 <= g < groups.len() && (#[trigger] groups[g]).x == x && groups[g].y == y
}

/// The groups bring the values of every point together, in the order of the
/// points' numbers.
pub open spec fn are_grouped(groups: Seq<TilePoint>, points: Seq<PointValue>) -> bool {
    &&& forall|i: int, j: int|
        #![trigger groups[i], groups[j]]
        0 <= i < j < groups.len() ==> point_number(groups[i].x, groups[i].y) < point_number(
            groups[j].x,
            groups[j].y,
        )
    &&& forall|g: int| 0 <= g < groups.len() ==> is_group(#[trigger] groups[g], points)
    &&& forall|k: int|
        0 <= k < points.len() ==> is_grouped(groups, (#[trigger] points[k]).x, points[k].y)
}

/// The values have places in a point, and none is the one that stands for none.
pub open spec fn all_storable(points: Seq<PointValue>) -> bool {
    forall|k: int|
        0 <= k < points.len() ==> (#[trigger] points[k]).band_idx < 4 && points[k].value
            != i32::MIN
}

/// A value by the number of its point and its place among the values.
#[derive(Clone, Copy, Debug, PartialEq, Eq, Structural)]
pub struct Numbered {
    pub number: u64,
    pub index: usize,
}

impl Ordered for Numbered {
    open spec fn leq(self, other: Self) -> bool {
        self.number < other.number || (self.number == other.number && self.index <= other.index)
    }

    proof fn lemma_total(a: Self, b: Self) {
    }

    proof fn lemma_transitive(a: Self, b: Self, c: Self) {
    }

    fn at_most(&self, other: &Self) -> (r: bool) {
        self.number < other.number || (self.number == other.number && self.index <= other.index)
    }
}

/// The records are those of the values, in their order.
spec fn are_records(records: Seq<Numbered>, points: Seq<PointValue>) -> bool {
    &&& records.len() == points.len()
    &&& forall|k: int|
        0 <= k < points.len() ==> (#[trigger] records[k]).index == k && records[k].number
            == point_number(points[k].x, points[k].y)
}

/// The records in the order of their numbers: every value has one, and they are
/// strictly ascending.
spec fn is_sweep(sorted: Seq<Numbered>, points: Seq<PointValue>) -> bool {
    &&& sorted.len() == points.len()
    &&& forall|i: int, j: int|
        #![trigger sorted[i], sorted[j]]
        0 <= i < j < sorted.len() ==> sorted[i].leq(sorted[j]) && sorted[i].index
            != sorted[j].index
    &&& forall|i: int|
        0 <= i < sorted.len() ==> {
            let r = #[trigger] sorted[i];
            r.index < points.len() && r.number == point_number(
                points[r.index as int].x,
                points[r.index as int].y,
            )
        }
    &&& forall|k: int|
        0 <= k < points.len() ==> sorted.contains(
            Numbered {
                number: point_number((#[trigger] points[k]).x, points[k].y),
                index: k as usize,
            },
        )
}

proof fn lemma_sweep(records: Seq<Numbered>, sorted: Seq<Numbered>, points: Seq<PointValue>)
    requires
        are_records(records, points),
        ascending(sorted),
        sorted.to_multiset() == records.to_multiset(),
        points.len() <= usize::MAX,
    ensures
        is_sweep(sorted, points),
{
    broadcast use group_to_multiset_ensures;

    lemma_same_elements(sorted, records);
    assert forall|i: int, j: int|
        #![trigger sorted[i], sorted[j]]
        0 <= i < j < sorted.len() implies sorted[i].leq(sorted[j]) && sorted[i].index
        != sorted[j].index by {
        assert(sorted.contains(sorted[i]) && sorted.contains(sorted[j]));
        assert(records.contains(sorted[i]) && records.contains(sorted[j]));
        if sorted[i].index == sorted[j].index {
            let a = choose|a: int| 0 <= a < records.len() && records[a] == sorted[i];
            let b = choose|b: int| 0 <= b < records.len() && records[b] == sorted[j];
            assert(a == b);
            assert(records.no_duplicates());
            records.lemma_multiset_has_no_duplicates();
            assert(sorted.to_multiset().count(sorted[i]) <= 1);
            lemma_twice(sorted, i, j);
        }
    }
    assert forall|i: int| 0 <= i < sorted.len() implies {
        let r = #[trigger] sorted[i];
        r.index < points.len() && r.number == point_number(
            points[r.index as int].x,
            points[r.index as int].y,
        )
    } by {
        assert(sorted.contains(sorted[i]));
        assert(records.contains(sorted[i]));
        let a = choose|a: int| 0 <= a < records.len() && records[a] == sorted[i];
    }
    assert forall|k: int| 0 <= k < points.len() implies sorted.contains(
        Numbered { number: point_number((#[trigger] points[k]).x, points[k].y), index: k as usize },
    ) by {
        assert(records.contains(records[k]));
        assert(records[k] == Numbered {
            number: point_number(points[k].x, points[k].y),
            index: k as usize,
        });
    }
}

/// What stands at two places counts twice.
proof fn lemma_twice<A>(s: Seq<A>, i: int, j: int)
    requires
        0 <= i < j < s.len(),
        s[i] == s[j],
    ensures
        s.to_multiset().count(s[i]) >= 2,
{
    broadcast use group_to_multiset_ensures;

    let front = s.take(j);
    let back = s.skip(j);
    assert(s =~= front + back);
    vstd::seq_lib::lemma_multiset_commutative(front, back);
    assert(front[i] == s[i]);
    assert(back[0] == s[j]);
    assert(front.contains(s[i]) && back.contains(s[i]));
    vstd::seq_lib::to_multiset_contains(front, s[i]);
    vstd::seq_lib::to_multiset_contains(back, s[i]);
}

/// The values at a point that come behind a place do not belong to it.
spec fn none_between(points: Seq<PointValue>, from: int, to: int, x: u16, y: u16) -> bool {
    forall|m: int|
        from <= m < to && m < points.len() ==> !((#[trigger] points[m]).x == x && points[m].y == y)
}

proof fn lemma_value_kept(points: Seq<PointValue>, from: int, to: int, x: u16, y: u16, band: int)
    requires
        0 <= from <= to <= points.len(),
        none_between(points, from, to, x, y),
    ensures
        value_at(points, to, x, y, band) == value_at(points, from, x, y, band),
    decreases to - from,
{
    if from < to {
        assert(!(points[to - 1].x == x && points[to - 1].y == y));
        lemma_value_kept(points, from, to - 1, x, y, band);
    }
}

proof fn lemma_first_at(points: Seq<PointValue>, k: int)
    requires
        0 <= k < points.len(),
        none_between(points, 0, k, points[k].x, points[k].y),
    ensures
        first_at(points, points[k].x, points[k].y) == k,
    decreases points.len(),
{
    if k > 0 {
        let x = points[k].x;
        let y = points[k].y;
        assert(!(points[0].x == x && points[0].y == y));
        let rest = points.skip(1);
        assert forall|m: int| 0 <= m < k - 1 && m < rest.len() implies !((#[trigger] rest[m]).x
            == x && rest[m].y == y) by {
            assert(rest[m] == points[m + 1]);
        }
        lemma_first_at(rest, k - 1);
    }
}

/// No other value of the same point stands between two records that follow each
/// other.
proof fn lemma_gap(sorted: Seq<Numbered>, points: Seq<PointValue>, i: int, m: int)
    requires
        is_sweep(sorted, points),
        points.len() <= usize::MAX,
        0 < i <= sorted.len(),
        sorted[i - 1].index < m < points.len(),
        i < sorted.len() ==> sorted[i].number != sorted[i - 1].number || m < sorted[i].index,
    ensures
        points[m].x != points[sorted[i - 1].index as int].x || points[m].y
            != points[sorted[i - 1].index as int].y,
{
    let last = sorted[i - 1];
    let record = Numbered {
        number: point_number(points[m].x, points[m].y),
        index: m as usize,
    };
    assert(sorted.contains(record));
    let p = choose|p: int| 0 <= p < sorted.len() && sorted[p] == record;
    if p < i - 1 {
        assert(sorted[p].leq(sorted[i - 1]));
    } else if p > i - 1 {
        assert(i < sorted.len());
        assert(sorted[i - 1].leq(sorted[i]) && sorted[i - 1].index != sorted[i].index);
        if p > i {
            assert(sorted[i].leq(sorted[p]) && sorted[i].index != sorted[p].index);
        }
    }
}

/// The first record of a number is that of the first value at its point.
proof fn lemma_start(sorted: Seq<Numbered>, points: Seq<PointValue>, i: int)
    requires
        is_sweep(sorted, points),
        0 <= i < sorted.len(),
        i > 0 ==> sorted[i - 1].number != sorted[i].number,
    ensures
        none_between(
            points,
            0,
            sorted[i].index as int,
            points[sorted[i].index as int].x,
            points[sorted[i].index as int].y,
        ),
{
    let here = sorted[i];
    let x = points[here.index as int].x;
    let y = points[here.index as int].y;
    assert forall|m: int| 0 <= m < here.index && m < points.len() implies !((#[trigger] points[m]).x
        == x && points[m].y == y) by {
        if points[m].x == x && points[m].y == y {
            let record = Numbered { number: point_number(x, y), index: m as usize };
            assert(sorted.contains(record));
            let p = choose|p: int| 0 <= p < sorted.len() && sorted[p] == record;
            if p > i {
                assert(sorted[i].leq(sorted[p]));
            } else if p < i {
                assert(sorted[p].leq(sorted[i - 1]) || p == i - 1);
                assert(sorted[i - 1].leq(sorted[i]));
            }
        }
    }
}

/// The numbers tell the points apart.
spec fn numbers_differ(points: Seq<PointValue>) -> bool {
    forall|a: int, b: int|
        #![trigger points[a], points[b]]
        0 <= a < points.len() && 0 <= b < points.len() && point_number(points[a].x, points[a].y)
            == point_number(points[b].x, points[b].y) ==> points[a].x == points[b].x && points[a].y
            == points[b].y
}

fn number_points(points: &Vec<PointValue>) -> (records: Vec<Numbered>)
    ensures
        are_records(records@, points@),
        numbers_differ(points@),
{
    let mut records: Vec<Numbered> = Vec::new();
    let mut k: usize = 0;
    while k < points.len()
        invariant
            k <= points@.len(),
            records@.len() == k,
            forall|i: int|
                0 <= i < k ==> (#[trigger] records@[i]).index == i && records@[i].number
                    == point_number(points@[i].x, points@[i].y),
            forall|a: int, b: int|
                #![trigger points@[a], points@[b]]
                0 <= a < k && 0 <= b < points@.len() && point_number(points@[a].x, points@[a].y)
                    == point_number(points@[b].x, points@[b].y) ==> points@[a].x == points@[b].x
                    && points@[a].y == points@[b].y,
        decreases points@.len() - k,
    {
        let point = points[k];
        proof {
            lemma2_to64();
        }
        let number: u64 = hilbert(point.x as u32, point.y as u32, POINT_ORDER);
        proof {
            assert forall|b: int| 0 <= b < points@.len() && point_number(point.x, point.y)
                == point_number((#[trigger] points@[b]).x, points@[b].y) implies points@[b].x
                == point.x && points@[b].y == point.y by {
                assert(hilbert_number(points@[b].x as u32, points@[b].y as u32, POINT_ORDER)
                    == number);
            }
        }
        records.push(Numbered { number, index: k });
        k = k + 1;
    }
    records
}

/// Brings the values of all the bands at each point together.
pub fn group_points(points: &Vec<PointValue>) -> (groups: Vec<TilePoint>)
    requires
        all_storable(points@),
    ensures
        are_grouped(groups@, points@),
{
    let records = number_points(points);
    let ghost given = records@;
    let sorted = sort(records);
    let count: usize = sorted.len();
    proof {
        lemma_sweep(given, sorted@, points@);
    }
    let mut groups: Vec<TilePoint> = Vec::new();
    let mut i: usize = 0;
    while i < count
        invariant
            i <= count,
            count == sorted@.len(),
            count == points@.len(),
            all_storable(points@),
            numbers_differ(points@),
            is_sweep(sorted@, points@),
            i > 0 && i < count ==> sorted@[i - 1].number != sorted@[i as int].number,
            forall|a: int, b: int|
                #![trigger groups@[a], groups@[b]]
                0 <= a < b < groups@.len() ==> point_number(groups@[a].x, groups@[a].y)
                    < point_number(groups@[b].x, groups@[b].y),
            forall|g: int|
                0 <= g < groups@.len() ==> is_group(#[trigger] groups@[g], points@) && i > 0
                    && point_number(groups@[g].x, groups@[g].y) <= sorted@[i - 1].number,
            forall|p: int|
                0 <= p < i ==> is_grouped(
                    groups@,
                    points@[(#[trigger] sorted@[p]).index as int].x,
                    points@[sorted@[p].index as int].y,
                ),
        decreases count - i,
    {
        let start: usize = i;
        let number: u64 = sorted[i].number;
        let ghost home = sorted@[start as int].index as int;
        let first = points[sorted[i].index];
        let mut values: [CompactOptI32; 4] = [
            CompactOptI32::none(),
            CompactOptI32::none(),
            CompactOptI32::none(),
            CompactOptI32::none(),
        ];
        proof {
            lemma_start(sorted@, points@, i as int);
            lemma_first_at(points@, home);
            assert forall|b: int| 0 <= b < 4 implies (#[trigger] values@[b])@ == value_at(
                points@,
                home,
                first.x,
                first.y,
                b,
            ) by {
                lemma_value_kept(points@, 0, home, first.x, first.y, b);
            }
        }
        while i < count && sorted[i].number == number
            invariant
                start <= i <= count,
                start < count,
                count == sorted@.len(),
                count == points@.len(),
                all_storable(points@),
                numbers_differ(points@),
                is_sweep(sorted@, points@),
                home == sorted@[start as int].index,
                first == points@[home],
                number == sorted@[start as int].number,
                forall|p: int|
                    start <= p < i ==> (#[trigger] sorted@[p]).number == number
                        && points@[sorted@[p].index as int].x == first.x
                        && points@[sorted@[p].index as int].y == first.y,
                forall|b: int|
                    0 <= b < 4 ==> (#[trigger] values@[b])@ == value_at(
                        points@,
                        if i == start {
                            home
                        } else {
                            sorted@[i - 1].index + 1
                        },
                        first.x,
                        first.y,
                        b,
                    ),
            decreases count - i,
        {
            let index: usize = sorted[i].index;
            let point = points[index];
            let ghost before = values@;
            let ghost last: int = if i == start {
                home
            } else {
                sorted@[i - 1].index + 1
            };
            proof {
                assert(points@[index as int].x == first.x && points@[index as int].y == first.y)
                    by {
                    assert(points@[home] == first);
                }
                if i > start {
                    assert(sorted@[i - 1].leq(sorted@[i as int]) && sorted@[i - 1].index
                        != sorted@[i as int].index);
                    assert(none_between(points@, last, index as int, first.x, first.y)) by {
                        assert forall|m: int| last <= m < index && m < points@.len() implies !((
                        #[trigger] points@[m]).x == first.x && points@[m].y == first.y) by {
                            if points@[m].x == first.x && points@[m].y == first.y {
                                lemma_gap(sorted@, points@, i as int, m);
                            }
                        }
                    }
                }
                assert forall|b: int| 0 <= b < 4 implies (#[trigger] before[b])@ == value_at(
                    points@,
                    index as int,
                    first.x,
                    first.y,
                    b,
                ) by {
                    lemma_value_kept(points@, last, index as int, first.x, first.y, b);
                }
            }
            let band: usize = point.band_idx as usize;
            values[band] = CompactOptI32::new(Some(point.value));
            proof {
                assert forall|b: int| 0 <= b < 4 implies (#[trigger] values@[b])@ == value_at(
                    points@,
                    index + 1,
                    first.x,
                    first.y,
                    b,
                ) by {
                    if b != band {
                        assert(values@[b] == before[b]);
                    }
                }
            }
            i = i + 1;
        }
        let ghost end: int = sorted@[i - 1].index + 1;
        proof {
            assert(i > start);
            assert(none_between(points@, end, count as int, first.x, first.y)) by {
                assert forall|m: int| end <= m < count && m < points@.len() implies !((
                #[trigger] points@[m]).x == first.x && points@[m].y == first.y) by {
                    if points@[m].x == first.x && points@[m].y == first.y {
                        lemma_gap(sorted@, points@, i as int, m);
                    }
                }
            }
            assert forall|b: int| 0 <= b < 4 implies (#[trigger] values@[b])@ == value_at(
                points@,
                count as int,
                first.x,
                first.y,
                b,
            ) by {
                lemma_value_kept(points@, end, count as int, first.x, first.y, b);
            }
        }
        let ghost given_groups = groups@;
        let group = TilePoint { x: first.x, y: first.y, point_power: first.point_power, values };
        groups.push(group);
        proof {
            assert(is_group(group, points@));
            let now = groups@;
            assert(point_number(group.x, group.y) == number);
            if start > 0 {
                assert(sorted@[start - 1].leq(sorted@[start as int]));
                assert(sorted@[start - 1].number < number);
            }
            assert(sorted@[i - 1].number == number);
            assert forall|a: int, b: int|
                #![trigger now[a], now[b]]
                0 <= a < b < now.len() implies point_number(now[a].x, now[a].y) < point_number(
                now[b].x,
                now[b].y,
            ) by {
                if b == given_groups.len() {
                    assert(now[a] == given_groups[a]);
                } else {
                    assert(now[a] == given_groups[a] && now[b] == given_groups[b]);
                }
            }
            assert forall|g: int| 0 <= g < now.len() implies is_group(#[trigger] now[g], points@)
                && point_number(now[g].x, now[g].y) <= sorted@[i - 1].number by {
                if g < given_groups.len() {
                    assert(now[g] == given_groups[g]);
                }
            }
            assert forall|p: int| 0 <= p < i implies is_grouped(
                now,
                points@[(#[trigger] sorted@[p]).index as int].x,
                points@[sorted@[p].index as int].y,
            ) by {
                let x = points@[sorted@[p].index as int].x;
                let y = points@[sorted@[p].index as int].y;
                if p < start {
                    assert(is_grouped(given_groups, x, y));
                    let g = choose|g: int|
                        0 <= g < given_groups.len() && (#[trigger] given_groups[g]).x == x
                            && given_groups[g].y == y;
                    assert(now[g] == given_groups[g]);
                } else {
                    assert(now[given_groups.len() as int].x == x);
                }
            }
        }
    }
    proof {
        assert forall|k: int| 0 <= k < points@.len() implies is_grouped(
            groups@,
            (#[trigger] points@[k]).x,
            points@[k].y,
        ) by {
            let record = Numbered {
                number: point_number(points@[k].x, points@[k].y),
                index: k as usize,
            };
            assert(sorted@.contains(record));
            let p = choose|p: int| 0 <= p < sorted@.len() && sorted@[p] == record;
            assert(sorted@[p].index == k);
        }
    }
    groups
}

/// What a group says, in terms of the values alone. A band has the value that comes last
/// among those of the band at the point, and none if and only if there is none; the power
/// is that of the first value at the point. No two groups stand for the same point.
pub proof fn lemma_group_says(
    groups: Seq<TilePoint>,
    points: Seq<PointValue>,
    g: int,
    band: int,
)
    requires
        are_grouped(groups, points),
        0 <= g < groups.len(),
        0 <= band < 4,
    ensures
        match groups[g].values@[band]@ {
            Some(value) => exists|k: int|
                0 <= k < points.len() && (#[trigger] points[k]).x == groups[g].x && points[k].y
                    == groups[g].y && points[k].band_idx == band && points[k].value == value
                    && forall|later: int|
                    k < later < points.len() ==> !((#[trigger] points[later]).x == groups[g].x
                        && points[later].y == groups[g].y && points[later].band_idx == band),
            None => forall|k: int|
                0 <= k < points.len() ==> !((#[trigger] points[k]).x == groups[g].x && points[k].y
                    == groups[g].y && points[k].band_idx == band),
        },
        exists|k: int|
            0 <= k < points.len() && (#[trigger] points[k]).x == groups[g].x && points[k].y
                == groups[g].y && points[k].point_power == groups[g].point_power && forall|
                earlier: int,
            |
                0 <= earlier < k ==> !((#[trigger] points[earlier]).x == groups[g].x
                    && points[earlier].y == groups[g].y),
        forall|h: int|
            0 <= h < groups.len() && h != g ==> !((#[trigger] groups[h]).x == groups[g].x
                && groups[h].y == groups[g].y),
{
    let group = groups[g];
    assert(is_group(group, points));
    lemma_last_value(points, points.len() as int, group.x, group.y, band);
    lemma_first_value(points, group.x, group.y);
    assert forall|h: int| 0 <= h < groups.len() && h != g implies !((#[trigger] groups[h]).x
        == groups[g].x && groups[h].y == groups[g].y) by {
        if h < g {
            assert(point_number(groups[h].x, groups[h].y) < point_number(groups[g].x, groups[g].y));
        } else {
            assert(point_number(groups[g].x, groups[g].y) < point_number(groups[h].x, groups[h].y));
        }
    }
}

proof fn lemma_last_value(points: Seq<PointValue>, n: int, x: u16, y: u16, band: int)
    requires
        0 <= n <= points.len(),
    ensures
        match value_at(points, n, x, y, band) {
            Some(value) => exists|k: int|
                0 <= k < n && (#[trigger] points[k]).x == x && points[k].y == y
                    && points[k].band_idx == band && points[k].value == value && forall|later: int|
                    k < later < n ==> !((#[trigger] points[later]).x == x && points[later].y == y
                        && points[later].band_idx == band),
            None => forall|k: int|
                0 <= k < n ==> !((#[trigger] points[k]).x == x && points[k].y == y
                    && points[k].band_idx == band),
        },
    decreases n,
{
    if n > 0 {
        lemma_last_value(points, n - 1, x, y, band);
    }
}

proof fn lemma_first_value(points: Seq<PointValue>, x: u16, y: u16)
    ensures
        0 <= first_at(points, x, y) <= points.len(),
        forall|k: int|
            0 <= k < first_at(points, x, y) ==> !((#[trigger] points[k]).x == x && points[k].y
                == y),
        first_at(points, x, y) < points.len() ==> points[first_at(points, x, y)].x == x
            && points[first_at(points, x, y)].y == y,
    decreases points.len(),
{
    if points.len() > 0 && !(points[0].x == x && points[0].y == y) {
        let rest = points.skip(1);
        lemma_first_value(rest, x, y);
        assert forall|k: int| 0 <= k < first_at(points, x, y) implies !((#[trigger] points[k]).x
            == x && points[k].y == y) by {
            if k > 0 {
                assert(rest[k - 1] == points[k]);
            }
        }
    }
}

} // verus!
