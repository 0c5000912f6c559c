//! Measuring source values against the range that an encoding can hold.

use std::collections::HashSet;

use vstd::prelude::*;
use vstd::std_specs::hash::group_hash_axioms;

use crate::double::{
    greater, is_finite, is_less, is_nan, lemma_extremes, lesser, max, min,
};
use crate::model::{lemma_pair, pair_of, BaseTile, RawPair};
use crate::raster::{lemma_range_held, ColorEncoding};

verus! {

/// The smallest and the largest value seen.
#[derive(Clone, Copy, Debug, PartialEq, Eq, Structural)]
pub struct Extremes {
    pub low: u64,
    pub high: u64,
}

/// What the source values look like beside the range the encoding was given.
///
/// Saturation is silent - a 60 m/s jet in a `vector-field:50` archive simply
/// becomes 50 - so this is measured once over the source and reported, rather
/// than left for a reader to notice as a field that stops getting faster.
#[derive(Debug)]
pub struct RangeReport {
    /// Smallest and largest physical value seen, per band the encoding reads.
    pub extremes: [Option<Extremes>; 2],
    /// Grid points whose value the range cannot hold.
    pub clipped: u64,
    /// Grid points carrying a value at all.
    pub total: u64,
}

/// The physical values of one grid point, and its code before rounding where the
/// encoding is a scalar over all bits.
#[derive(Clone, Copy, Debug)]
pub struct Reading {
    pub values: [u64; 2],
    pub code: u64,
}

/// The extremes with one more value.
pub open spec fn widened(extremes: Option<Extremes>, value: u64) -> Extremes {
    match extremes {
        Some(e) => Extremes { low: lesser(e.low, value), high: greater(e.high, value) },
        None => Extremes { low: value, high: value },
    }
}

/// The extremes of one band.
pub open spec fn extremes_of(readings: Seq<Reading>, band: int) -> Option<Extremes>
    decreases readings.len(),
{
    if readings.len() == 0 {
        None
    } else {
        Some(
            widened(extremes_of(readings.drop_last(), band), readings.last().values@[band]),
        )
    }
}

/// How many of the readings the encoding cannot hold.
pub open spec fn clipped_count(encoding: ColorEncoding, readings: Seq<Reading>) -> nat
    decreases readings.len(),
{
    if readings.len() == 0 {
        0
    } else {
        clipped_count(encoding, readings.drop_last()) + if encoding.saturates(
            readings.last().values@,
            readings.last().code,
        ) {
            1nat
        } else {
            0nat
        }
    }
}

impl RangeReport {
    /// The report says of the readings what there is to say.
    pub open spec fn describes(&self, encoding: ColorEncoding, readings: Seq<Reading>) -> bool {
        &&& self.total == readings.len()
        &&& self.clipped == clipped_count(encoding, readings)
        &&& self.extremes@[0] == extremes_of(readings, 0)
        &&& self.extremes@[1] == if encoding.band_count() == 2 {
            extremes_of(readings, 1)
        } else {
            None
        }
    }

    /// A report before anything was seen.
    pub fn new() -> (report: RangeReport)
        ensures
            report.clipped == 0,
            report.total == 0,
            forall|encoding: ColorEncoding| #[trigger]
                report.describes(encoding, Seq::<Reading>::empty()),
    {
        RangeReport { extremes: [None, None], clipped: 0, total: 0 }
    }

    pub fn is_clipping(&self) -> (r: bool)
        ensures
            r == (self.clipped > 0),
    {
        self.clipped > 0
    }

    fn widen(extremes: Option<Extremes>, value: u64) -> (wider: Option<Extremes>)
        ensures
            wider == Some(widened(extremes, value)),
    {
        match extremes {
            Some(e) => Some(Extremes { low: min(e.low, value), high: max(e.high, value) }),
            None => Some(Extremes { low: value, high: value }),
        }
    }

    /// Takes one more grid point into the report.
    pub fn observe(&mut self, encoding: ColorEncoding, reading: Reading)
        requires
            old(self).total < u64::MAX,
            old(self).clipped <= old(self).total,
        ensures
            final(self).clipped <= final(self).total,
            forall|readings: Seq<Reading>| #[trigger]
                old(self).describes(encoding, readings) ==> final(self).describes(
                    encoding,
                    readings.push(reading),
                ),
    {
        let ghost before = *self;
        self.total = self.total + 1;
        if encoding.clips(reading.values, reading.code) {
            self.clipped = self.clipped + 1;
        }
        let first = Self::widen(self.extremes[0], reading.values[0]);
        let second = if encoding.bands() == 2 {
            Self::widen(self.extremes[1], reading.values[1])
        } else {
            self.extremes[1]
        };
        self.extremes = [first, second];
        proof {
            assert forall|readings: Seq<Reading>| #[trigger]
                before.describes(encoding, readings) implies self.describes(
                encoding,
                readings.push(reading),
            ) by {
                assert(readings.push(reading).drop_last() =~= readings);
            }
        }
    }
}

/// Measures the source values of one product against an encoding, in one pass
/// over the grid rather than once per tile: a point appears in a tile at every
/// zoom, and counting it there would report it many times over.
pub fn inspect_range(readings: &Vec<Reading>, encoding: ColorEncoding) -> (report: RangeReport)
    ensures
        report.describes(encoding, readings@),
{
    let mut report = RangeReport::new();
    let mut i: usize = 0;
    proof {
        assert(readings@.take(0) =~= Seq::empty());
    }
    while i < readings.len()
        invariant
            i <= readings@.len(),
            report.describes(encoding, readings@.take(i as int)),
            report.clipped <= report.total,
        decreases readings@.len() - i,
    {
        let ghost seen = readings@.take(i as int);
        report.observe(encoding, readings[i]);
        proof {
            assert(readings@.take(i + 1) =~= seen.push(readings@[i as int]));
        }
        i = i + 1;
    }
    assert(readings@.take(readings@.len() as int) =~= readings@);
    report
}

/// The raw values of a point of a tile.
pub open spec fn reading_at(tile: BaseTile, bands: int, index: int) -> Option<RawPair> {
    let first = tile.bands@[0].values@[index];
    let second = if bands == 2 {
        tile.bands@[1].values@[index]
    } else {
        first
    };
    pair_of(seq![first, second], bands)
}

/// A point of the base grid, and the raw values there.
pub type Placed = ((u16, u16), RawPair);

/// The raw values of the first `n` points of a tile, as far as none is missing.
pub open spec fn tile_readings(tile: BaseTile, bands: int, n: int) -> Seq<Placed>
    decreases n,
{
    if n <= 0 {
        Seq::empty()
    } else {
        match reading_at(tile, bands, n - 1) {
            Some(pair) => tile_readings(tile, bands, n - 1).push(
                (tile.point_positions@[n - 1], pair),
            ),
            None => tile_readings(tile, bands, n - 1),
        }
    }
}

/// The raw values of all the points of the tiles. A tile without bands has none.
pub open spec fn all_readings(tiles: Seq<(u64, BaseTile)>, bands: int) -> Seq<Placed>
    decreases tiles.len(),
{
    if tiles.len() == 0 {
        Seq::empty()
    } else {
        let before = all_readings(tiles.drop_last(), bands);
        let tile = tiles.last().1;
        if tile.bands@.len() == 0 {
            before
        } else {
            before + tile_readings(tile, bands, tile.bands@[0].values@.len() as int)
        }
    }
}

/// Some reading stands at the point.
pub open spec fn is_read(readings: Seq<Placed>, position: (u16, u16)) -> bool {
    exists|i: int| 0 <= i < readings.len() && (#[trigger] readings[i]).0 == position
}

/// One reading for each point of the grid: near the edge of a tile a point has
/// copies in the tiles beside it, and only the first of them counts.
pub open spec fn once_each(readings: Seq<Placed>) -> Seq<RawPair>
    decreases readings.len(),
{
    if readings.len() == 0 {
        Seq::empty()
    } else {
        let before = readings.drop_last();
        let last = readings.last();
        if is_read(before, last.0) {
            once_each(before)
        } else {
            once_each(before).push(last.1)
        }
    }
}

/// The points that have a reading.
pub open spec fn read_points(readings: Seq<Placed>) -> Set<(u16, u16)> {
    readings.map_values(|r: Placed| r.0).to_set()
}

/// There are as many readings as points of the grid with a value, however many
/// tiles hold a copy of one.
pub proof fn lemma_once_each(readings: Seq<Placed>)
    ensures
        once_each(readings).len() == read_points(readings).len(),
        read_points(readings).finite(),
    decreases readings.len(),
{
    let all = readings.map_values(|r: Placed| r.0);
    if readings.len() == 0 {
        assert(all.to_set() =~= Set::empty());
    } else {
        let before = readings.drop_last();
        let last = readings.last();
        let shorter = before.map_values(|r: Placed| r.0);
        lemma_once_each(before);
        assert(all =~= shorter.push(last.0));
        assert(read_points(readings) =~= read_points(before).insert(last.0)) by {
            assert forall|p: (u16, u16)| #[trigger]
                read_points(readings).contains(p) <==> read_points(before).insert(last.0).contains(
                    p,
                ) by {
                if all.contains(p) {
                    let i = choose|i: int| 0 <= i < all.len() && all[i] == p;
                    if i < shorter.len() {
                        assert(shorter[i] == p);
                    }
                }
                if shorter.contains(p) {
                    let i = choose|i: int| 0 <= i < shorter.len() && shorter[i] == p;
                    assert(all[i] == p);
                }
                assert(all[shorter.len() as int] == last.0);
            }
        }
        assert(is_read(before, last.0) == read_points(before).contains(last.0)) by {
            if is_read(before, last.0) {
                let i = choose|i: int|
                    0 <= i < before.len() && (#[trigger] before[i]).0 == last.0;
                assert(shorter[i] == last.0);
            }
            if shorter.contains(last.0) {
                let i = choose|i: int| 0 <= i < shorter.len() && shorter[i] == last.0;
                assert(before[i].0 == last.0);
            }
        }
    }
}

/// A point as one number.
spec fn point_key(position: (u16, u16)) -> u32 {
    (position.0 * 0x1_0000 + position.1) as u32
}

/// The keys of the points that have been read.
spec fn keyed(keys: Set<u32>, readings: Seq<Placed>) -> bool {
    forall|p: (u16, u16)| #[trigger] keys.contains(point_key(p)) <==> is_read(readings, p)
}

proof fn lemma_one_more(keys: Set<u32>, readings: Seq<Placed>, reading: Placed)
    requires
        keyed(keys, readings),
    ensures
        keyed(keys.insert(point_key(reading.0)), readings.push(reading)),
        once_each(readings.push(reading)) == if keys.contains(point_key(reading.0)) {
            once_each(readings)
        } else {
            once_each(readings).push(reading.1)
        },
{
    let all = readings.push(reading);
    assert(all.drop_last() =~= readings);
    assert forall|p: (u16, u16)| #[trigger]
        keys.insert(point_key(reading.0)).contains(point_key(p)) <==> is_read(all, p) by {
        if is_read(readings, p) {
            let i = choose|i: int| 0 <= i < readings.len() && (#[trigger] readings[i]).0 == p;
            assert(all[i].0 == p);
        }
        if is_read(all, p) {
            let i = choose|i: int| 0 <= i < all.len() && (#[trigger] all[i]).0 == p;
            if i < readings.len() {
                assert(readings[i].0 == p);
            }
        }
        assert(all[readings.len() as int].0 == reading.0);
        assert(keys.contains(point_key(p)) <==> is_read(readings, p));
    }
}

/// The raw values that an encoding reads, once for each point of the grid where it
/// finds them all: half a vector is not a velocity.
pub fn raw_readings(tiles: &Vec<(u64, BaseTile)>, encoding: ColorEncoding) -> (readings: Vec<
    RawPair,
>)
    requires
        forall|t: int|
            0 <= t < tiles@.len() ==> {
                let tile = (#[trigger] tiles@[t]).1;
                tile.wf() && (tile.bands@.len() == 0 || tile.bands@.len() >= encoding.band_count())
            },
    ensures
        readings@ == once_each(all_readings(tiles@, encoding.band_count())),
{
    broadcast use group_hash_axioms;

    let bands: usize = encoding.bands();
    let mut readings: Vec<RawPair> = Vec::new();
    let mut keys: HashSet<u32> = HashSet::new();
    let mut t: usize = 0;
    proof {
        assert(tiles@.take(0) =~= Seq::empty());
    }
    while t < tiles.len()
        invariant
            t <= tiles@.len(),
            bands == encoding.band_count(),
            readings@ == once_each(all_readings(tiles@.take(t as int), bands as int)),
            keyed(keys@, all_readings(tiles@.take(t as int), bands as int)),
            forall|t: int|
                0 <= t < tiles@.len() ==> {
                    let tile = (#[trigger] tiles@[t]).1;
                    tile.wf() && (tile.bands@.len() == 0 || tile.bands@.len() >= bands)
                },
        decreases tiles@.len() - t,
    {
        let ghost seen = all_readings(tiles@.take(t as int), bands as int);
        proof {
            assert(tiles@.take(t + 1).drop_last() =~= tiles@.take(t as int));
            assert(tiles@.take(t + 1).last() == tiles@[t as int]);
        }
        let tile = &tiles[t].1;
        if tile.bands.len() > 0 {
            let count: usize = tile.bands[0].values.len();
            let mut index: usize = 0;
            proof {
                assert(seen + tile_readings(*tile, bands as int, 0) =~= seen);
            }
            while index < count
                invariant
                    index <= count,
                    1 <= bands <= 2,
                    tile.wf(),
                    tile.bands@.len() >= bands,
                    count == tile.bands@[0].values@.len(),
                    readings@ == once_each(
                        seen + tile_readings(*tile, bands as int, index as int),
                    ),
                    keyed(keys@, seen + tile_readings(*tile, bands as int, index as int)),
                decreases count - index,
            {
                assert(tile.bands@[0].values@.len() == tile.point_positions@.len());
                let position: (u16, u16) = tile.point_positions[index];
                let first = tile.bands[0].values[index].get();
                let second = if bands == 2 {
                    assert(tile.bands@[1].values@.len() == tile.point_positions@.len());
                    tile.bands[1].values[index].get()
                } else {
                    Some(0)
                };
                if let (Some(first), Some(second)) = (first, second) {
                    let pair = RawPair { first, second };
                    let key: u32 = position.0 as u32 * 0x1_0000 + position.1 as u32;
                    proof {
                        let before = tile_readings(*tile, bands as int, index as int);
                        assert(reading_at(*tile, bands as int, index as int) == Some(pair));
                        assert((seen + before).push((position, pair)) =~= seen + before.push(
                            (position, pair),
                        ));
                        assert(key == point_key(position));
                        lemma_one_more(keys@, seen + before, (position, pair));
                    }
                    if keys.insert(key) {
                        readings.push(pair);
                    }
                } else {
                    assert(reading_at(*tile, bands as int, index as int) is None);
                }
                index = index + 1;
            }
        }
        t = t + 1;
    }
    assert(tiles@.take(tiles@.len() as int) =~= tiles@);
    readings
}

/// The extremes of a band are values that were seen, and stand on either side of every
/// number among them. There are none if and only if nothing was seen.
pub proof fn lemma_extremes_seen(readings: Seq<Reading>, band: int)
    ensures
        match extremes_of(readings, band) {
            Some(e) => {
                &&& exists|i: int|
                    0 <= i < readings.len() && e.low == (#[trigger] readings[i]).values@[band]
                &&& exists|i: int|
                    0 <= i < readings.len() && e.high == (#[trigger] readings[i]).values@[band]
                &&& forall|i: int|
                    0 <= i < readings.len() && !is_nan((#[trigger] readings[i]).values@[band]) ==> {
                        &&& !is_nan(e.low) && !is_less(readings[i].values@[band], e.low)
                        &&& !is_nan(e.high) && !is_less(e.high, readings[i].values@[band])
                    }
            },
            None => readings.len() == 0,
        },
    decreases readings.len(),
{
    if readings.len() > 0 {
        let rest = readings.drop_last();
        let n = readings.len() - 1;
        let value = readings[n].values@[band];
        lemma_extremes_seen(rest, band);
        let e = extremes_of(readings, band)->0;
        match extremes_of(rest, band) {
            Some(before) => {
                lemma_extremes(before.low, value);
                lemma_extremes(before.high, value);
                let l = choose|i: int|
                    0 <= i < rest.len() && before.low == (#[trigger] rest[i]).values@[band];
                let h = choose|i: int|
                    0 <= i < rest.len() && before.high == (#[trigger] rest[i]).values@[band];
                assert(rest[l] == readings[l] && rest[h] == readings[h]);
                assert forall|i: int|
                    0 <= i < readings.len() && !is_nan(
                        (#[trigger] readings[i]).values@[band],
                    ) implies {
                    &&& !is_nan(e.low) && !is_less(readings[i].values@[band], e.low)
                    &&& !is_nan(e.high) && !is_less(e.high, readings[i].values@[band])
                } by {
                    if i < n {
                        assert(rest[i] == readings[i]);
                    }
                }
            },
            None => {},
        }
    }
}

/// How many readings the encoding cannot hold: those below the range or above it, on
/// either side of zero for a vector, and those that are not finite.
pub proof fn lemma_clipped(encoding: ColorEncoding, readings: Seq<Reading>)
    ensures
        clipped_count(encoding, readings) == readings.filter(
            |r: Reading|
                match encoding {
                    ColorEncoding::Scalar24 { .. } => !(r.code <= 0x416f_ffff_e000_0000 || r.code
                        == 0x8000_0000_0000_0000),
                    ColorEncoding::Scalar16 { min, max } => !is_finite(r.values@[0]) || is_less(
                        r.values@[0],
                        min,
                    ) || is_less(max, r.values@[0]),
                    ColorEncoding::VectorField { component_limit } => !is_finite(r.values@[0])
                        || !is_finite(r.values@[1]) || is_less(
                        component_limit,
                        r.values@[0] % 0x8000_0000_0000_0000,
                    ) || is_less(component_limit, r.values@[1] % 0x8000_0000_0000_0000),
                },
        ).len(),
    decreases readings.len(),
{
    reveal(Seq::filter);
    if readings.len() > 0 {
        lemma_clipped(encoding, readings.drop_last());
        lemma_range_held(encoding, readings.last().values@, readings.last().code);
    }
}

/// What a report says: how many readings there were, how many of them are clipped, and
/// the extremes of the bands that the encoding reads; of the second band only where it
/// reads two.
pub proof fn lemma_report_says(
    report: RangeReport,
    encoding: ColorEncoding,
    readings: Seq<Reading>,
)
    requires
        report.describes(encoding, readings),
    ensures
        report.total == readings.len(),
        report.clipped == clipped_count(encoding, readings),
        report.extremes@[0] == extremes_of(readings, 0),
        encoding is VectorField ==> report.extremes@[1] == extremes_of(readings, 1),
        !(encoding is VectorField) ==> report.extremes@[1] is None,
{
}

/// The first reading of a point counts, and stands behind those of the points that come
/// before it.
pub proof fn lemma_first_counts(readings: Seq<Placed>, i: int)
    requires
        0 <= i < readings.len(),
        forall|k: int| 0 <= k < i ==> (#[trigger] readings[k]).0 != readings[i].0,
    ensures
        once_each(readings.take(i)).len() < once_each(readings).len(),
        once_each(readings)[once_each(readings.take(i)).len() as int] == readings[i].1,
    decreases readings.len(),
{
    let before = readings.drop_last();
    if i < before.len() {
        assert(before.take(i) =~= readings.take(i));
        lemma_first_counts(before, i);
    } else {
        assert(readings.take(i) =~= before);
        assert(!is_read(before, readings[i].0));
    }
}

/// What is read of the tiles: at the point of some tile the values of its bands, both of
/// them for two bands and the first alone for one, and only where all that are read are
/// there.
pub proof fn lemma_reading_taken(
    tiles: Seq<(u64, BaseTile)>,
    bands: int,
    position: (u16, u16),
    pair: RawPair,
)
    ensures
        all_readings(tiles, bands).contains((position, pair)) <==> exists|t: int, k: int|
            #![trigger tiles[t].1.point_positions@[k]]
            0 <= t < tiles.len() && is_taken(tiles[t].1, bands, k, position, pair),
    decreases tiles.len(),
{
    let all = all_readings(tiles, bands);
    if tiles.len() > 0 {
        let rest = tiles.drop_last();
        let n = tiles.len() - 1;
        let tile = tiles[n].1;
        let before = all_readings(rest, bands);
        lemma_reading_taken(rest, bands, position, pair);
        let count = if tile.bands@.len() == 0 {
            0
        } else {
            tile.bands@[0].values@.len() as int
        };
        let own = tile_readings(tile, bands, count);
        lemma_reading_in_tile(tile, bands, count, position, pair);
        assert(all =~= before + own);
        if all.contains((position, pair)) {
            let i = choose|i: int| 0 <= i < all.len() && all[i] == (position, pair);
            if i < before.len() {
                assert(before[i] == (position, pair));
                let (t, k) = choose|t: int, k: int|
                    #![trigger rest[t].1.point_positions@[k]]
                    0 <= t < rest.len() && is_taken(rest[t].1, bands, k, position, pair);
                assert(tiles[t] == rest[t]);
                assert(is_taken(tiles[t].1, bands, k, position, pair));
            } else {
                assert(own[i - before.len()] == (position, pair));
                let k = choose|k: int|
                    #![trigger tile.point_positions@[k]]
                    k < count && is_taken(tile, bands, k, position, pair);
                assert(is_taken(tiles[n].1, bands, k, position, pair));
            }
        }
        if exists|t: int, k: int|
            #![trigger tiles[t].1.point_positions@[k]]
            0 <= t < tiles.len() && is_taken(tiles[t].1, bands, k, position, pair) {
            let (t, k) = choose|t: int, k: int|
                #![trigger tiles[t].1.point_positions@[k]]
                0 <= t < tiles.len() && is_taken(tiles[t].1, bands, k, position, pair);
            if t < n {
                assert(rest[t] == tiles[t]);
                assert(is_taken(rest[t].1, bands, k, position, pair));
                assert(before.contains((position, pair)));
                let i = choose|i: int| 0 <= i < before.len() && before[i] == (position, pair);
                assert(all[i] == (position, pair));
            } else {
                assert(own.contains((position, pair)));
                let i = choose|i: int| 0 <= i < own.len() && own[i] == (position, pair);
                assert(all[before.len() + i] == (position, pair));
            }
        }
    }
}

/// The point of a tile has these values, none of which is missing.
pub open spec fn is_taken(
    tile: BaseTile,
    bands: int,
    k: int,
    position: (u16, u16),
    pair: RawPair,
) -> bool {
    &&& tile.bands@.len() > 0
    &&& 0 <= k < tile.bands@[0].values@.len()
    &&& tile.point_positions@[k] == position
    &&& tile.bands@[0].values@[k]@ == Some(pair.first)
    &&& bands == 2 ==> tile.bands@[1].values@[k]@ == Some(pair.second)
    &&& bands != 2 ==> pair.second == 0
}

proof fn lemma_reading_in_tile(
    tile: BaseTile,
    bands: int,
    n: int,
    position: (u16, u16),
    pair: RawPair,
)
    requires
        tile.bands@.len() == 0 ==> n == 0,
        tile.bands@.len() > 0 ==> n <= tile.bands@[0].values@.len(),
    ensures
        tile_readings(tile, bands, n).contains((position, pair)) <==> exists|k: int|
            #![trigger tile.point_positions@[k]]
            k < n && is_taken(tile, bands, k, position, pair),
    decreases n,
{
    if n > 0 {
        let before = tile_readings(tile, bands, n - 1);
        let now = tile_readings(tile, bands, n);
        lemma_reading_in_tile(tile, bands, n - 1, position, pair);
        let first = tile.bands@[0].values@[n - 1];
        let second = if bands == 2 {
            tile.bands@[1].values@[n - 1]
        } else {
            first
        };
        lemma_pair(seq![first, second], bands);
        let at = tile.point_positions@[n - 1];
        assert((reading_at(tile, bands, n - 1) == Some(pair) && at == position) <==> is_taken(
            tile,
            bands,
            n - 1,
            position,
            pair,
        ));
        if now.contains((position, pair)) {
            let i = choose|i: int| 0 <= i < now.len() && now[i] == (position, pair);
            if i < before.len() {
                assert(before[i] == (position, pair));
            }
        }
        if before.contains((position, pair)) {
            let i = choose|i: int| 0 <= i < before.len() && before[i] == (position, pair);
            assert(now[i] == (position, pair));
        }
        if is_taken(tile, bands, n - 1, position, pair) {
            assert(now[before.len() as int] == (position, pair));
        }
    }
}

} // verus!
