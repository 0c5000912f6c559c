//! The cells of a tile: those of equal values become the polygons of one
//! feature.

use vstd::prelude::*;

use crate::contour::UnionError;
use crate::geometry::{polygon_covers, polygons_view, Coord, Polygon};
use crate::model::CompactOptI32;
use crate::rect_union::{
    all_valid, covered, is_union, lemma_one_union, union_rectangles, IntRect,
};

verus! {

/// The number that a value has in an id: negative numbers stand in the upper
/// half.
pub open spec fn id_code(value: i32) -> int {
    if value < 0 {
        value + 0x1_0000_0000
    } else {
        value as int
    }
}

/// The id of a feature with these values.
pub open spec fn feature_id(values: Seq<CompactOptI32>) -> Option<int> {
    if values.len() == 1 {
        match values[0]@ {
            Some(value) => Some(id_code(value)),
            None => None,
        }
    } else if values.len() == 2 {
        match (values[0]@, values[1]@) {
            (Some(first), Some(second)) => Some(id_code(first) * 0x1_0000_0000 + id_code(second)),
            _ => None,
        }
    } else {
        None
    }
}

fn code(value: i32) -> (number: u64)
    ensures
        number == id_code(value),
{
    let wide: i64 = value as i64;
    if wide < 0 {
        (wide + 0x1_0000_0000) as u64
    } else {
        wide as u64
    }
}

/// A feature id that no other value combination in the layer can share.
///
/// Each band is a whole `i32`, so only one or two of them fit in the 64 bits an
/// id has. A band without a value has no code left to stand for it, so those
/// features go without an id rather than share one.
pub fn unique_feature_id(values: &[CompactOptI32]) -> (id: Option<u64>)
    ensures
        match (id, feature_id(values@)) {
            (Some(id), Some(number)) => id == number,
            (None, None) => true,
            _ => false,
        },
{
    if values.len() == 1 {
        match values[0].get() {
            Some(value) => Some(code(value)),
            None => None,
        }
    } else if values.len() == 2 {
        match (values[0].get(), values[1].get()) {
            (Some(first), Some(second)) => Some(code(first) * 0x1_0000_0000 + code(second)),
            _ => None,
        }
    } else {
        None
    }
}

/// Features of one layer that have ids, and different values, have different
/// ids.
pub proof fn lemma_ids_differ(a: Seq<CompactOptI32>, b: Seq<CompactOptI32>)
    requires
        a.len() == b.len(),
        a != b,
        feature_id(a) is Some,
        feature_id(b) is Some,
    ensures
        feature_id(a) != feature_id(b),
{
    if feature_id(a) == feature_id(b) {
        assert forall|i: int| 0 <= i < a.len() implies a[i] == b[i] by {}
        assert(a =~= b);
    }
}

/// A cell on the pixels of a tile: its values, its place before it is cut to the
/// tile, and its columns a turn further on where it crosses the anti-meridian.
#[derive(Clone, Copy, Debug)]
pub struct ProjectedCell {
    pub values: [CompactOptI32; 4],
    pub x1: i32,
    pub x2: i32,
    pub y1: i32,
    pub y2: i32,
    pub wrapped: Option<(i32, i32)>,
}

/// How far the cells of a tile reach over its edges.
pub open spec fn buffer_of(extent: int) -> int {
    2 * extent / 256
}

/// A place cut to the tile and its buffer.
pub open spec fn cut(place: int, extent: int) -> int {
    if place < -buffer_of(extent) {
        -buffer_of(extent)
    } else if place > extent + buffer_of(extent) {
        extent + buffer_of(extent)
    } else {
        place
    }
}

/// The part of a cell that lies in the tile, where there is any.
pub open spec fn cut_rectangle(
    x1: int,
    y1: int,
    x2: int,
    y2: int,
    extent: int,
) -> Seq<IntRect> {
    if cut(y1, extent) < cut(y2, extent) && cut(x1, extent) < cut(x2, extent) {
        seq![
            IntRect {
                x1: cut(x1, extent) as i32,
                y1: cut(y1, extent) as i32,
                x2: cut(x2, extent) as i32,
                y2: cut(y2, extent) as i32,
            },
        ]
    } else {
        Seq::empty()
    }
}

/// The rectangles of a cell.
pub open spec fn cell_rectangles(cell: ProjectedCell, extent: int) -> Seq<IntRect> {
    cut_rectangle(cell.x1 as int, cell.y1 as int, cell.x2 as int, cell.y2 as int, extent)
        + match cell.wrapped {
        Some((x1, x2)) => cut_rectangle(
            x1 as int,
            cell.y1 as int,
            x2 as int,
            cell.y2 as int,
            extent,
        ),
        None => Seq::empty(),
    }
}

/// The rectangles of all the cells with the same values.
pub open spec fn rectangles_with(
    cells: Seq<ProjectedCell>,
    values: Seq<CompactOptI32>,
    extent: int,
) -> Seq<IntRect>
    decreases cells.len(),
{
    if cells.len() == 0 {
        Seq::empty()
    } else {
        let before = rectangles_with(cells.drop_last(), values, extent);
        if cells.last().values@ == values {
            before + cell_rectangles(cells.last(), extent)
        } else {
            before
        }
    }
}

/// The rectangles that share their values.
#[derive(Debug)]
pub struct Group {
    pub values: [CompactOptI32; 4],
    pub rectangles: Vec<IntRect>,
}

/// A number that orders values as their bands are ordered, one after another; a
/// missing value stands before all others.
pub open spec fn rank_of(values: Seq<CompactOptI32>) -> int {
    (((values[0].raw + 0x8000_0000) * 0x1_0000_0000 + (values[1].raw + 0x8000_0000))
        * 0x1_0000_0000 + (values[2].raw + 0x8000_0000)) * 0x1_0000_0000 + (values[3].raw
        + 0x8000_0000)
}

/// One set of values stands before another.
pub open spec fn precedes(a: Seq<CompactOptI32>, b: Seq<CompactOptI32>) -> bool {
    ||| a[0].raw < b[0].raw
    ||| a[0].raw == b[0].raw && a[1].raw < b[1].raw
    ||| a[0].raw == b[0].raw && a[1].raw == b[1].raw && a[2].raw < b[2].raw
    ||| a[0].raw == b[0].raw && a[1].raw == b[1].raw && a[2].raw == b[2].raw && a[3].raw < b[3].raw
}

/// The number orders values band by band, and tells them apart.
pub proof fn lemma_rank(a: Seq<CompactOptI32>, b: Seq<CompactOptI32>)
    requires
        a.len() == 4,
        b.len() == 4,
    ensures
        rank_of(a) < rank_of(b) <==> precedes(a, b),
        rank_of(a) == rank_of(b) <==> a == b,
{
    if rank_of(a) == rank_of(b) {
        assert(a[0].raw == b[0].raw && a[1].raw == b[1].raw && a[2].raw == b[2].raw && a[3].raw
            == b[3].raw);
        assert(a =~= b);
    }
}

fn rank(values: &[CompactOptI32; 4]) -> (number: u128)
    ensures
        number == rank_of(values@),
{
    let a: u128 = (values[0].raw as i64 + 0x8000_0000) as u128;
    let b: u128 = (values[1].raw as i64 + 0x8000_0000) as u128;
    let c: u128 = (values[2].raw as i64 + 0x8000_0000) as u128;
    let d: u128 = (values[3].raw as i64 + 0x8000_0000) as u128;
    ((a * 0x1_0000_0000 + b) * 0x1_0000_0000 + c) * 0x1_0000_0000 + d
}

/// The groups stand in the order of their values.
pub open spec fn groups_ordered(groups: Seq<Group>) -> bool {
    forall|i: int, j: int|
        #![trigger groups[i], groups[j]]
        0 <= i < j < groups.len() ==> rank_of(groups[i].values@) < rank_of(groups[j].values@)
}

/// Some group has the values.
pub open spec fn has_group(groups: Seq<Group>, values: Seq<CompactOptI32>) -> bool {
    exists|g: int| 0 <= g < groups.len() && (#[trigger] groups[g]).values@ == values
}

/// The groups hold the rectangles of the cells, and there is one for all values
/// that have any.
pub open spec fn are_groups(groups: Seq<Group>, cells: Seq<ProjectedCell>, extent: int) -> bool {
    &&& groups_ordered(groups)
    &&& forall|g: int|
        0 <= g < groups.len() ==> {
            let group = #[trigger] groups[g];
            &&& group.rectangles@.len() > 0
            &&& group.rectangles@ == rectangles_with(cells, group.values@, extent)
        }
    &&& forall|values: Seq<CompactOptI32>| #[trigger]
        rectangles_with(cells, values, extent).len() > 0 ==> has_group(groups, values)
}

fn cut_place(place: i32, extent: i32) -> (r: i32)
    requires
        0 < extent <= 0x3fff_ffff,
    ensures
        r == cut(place as int, extent as int),
{
    let buffer: i32 = 2 * extent / 256;
    if place < -buffer {
        -buffer
    } else if place > extent + buffer {
        extent + buffer
    } else {
        place
    }
}

fn cell_rects(cell: &ProjectedCell, extent: i32) -> (rectangles: Vec<IntRect>)
    requires
        0 < extent <= 0x3fff_ffff,
    ensures
        rectangles@ == cell_rectangles(*cell, extent as int),
        rectangles@.len() <= 2,
        all_valid(rectangles@),
{
    let mut rectangles: Vec<IntRect> = Vec::new();
    let y1: i32 = cut_place(cell.y1, extent);
    let y2: i32 = cut_place(cell.y2, extent);
    if y1 < y2 {
        let x1: i32 = cut_place(cell.x1, extent);
        let x2: i32 = cut_place(cell.x2, extent);
        if x1 < x2 {
            rectangles.push(IntRect::new(x1, y1, x2, y2));
        }
        if let Some((from, to)) = cell.wrapped {
            let x1: i32 = cut_place(from, extent);
            let x2: i32 = cut_place(to, extent);
            if x1 < x2 {
                rectangles.push(IntRect::new(x1, y1, x2, y2));
            }
        }
    }
    assert(rectangles@ =~= cell_rectangles(*cell, extent as int));
    rectangles
}

/// The place of values among the groups.
fn find_group(groups: &Vec<Group>, values: &[CompactOptI32; 4]) -> (place: usize)
    requires
        groups_ordered(groups@),
    ensures
        place <= groups@.len(),
        forall|k: int|
            0 <= k < place ==> rank_of((#[trigger] groups@[k]).values@) < rank_of(values@),
        forall|k: int|
            place <= k < groups@.len() ==> rank_of(values@) <= rank_of(
                (#[trigger] groups@[k]).values@,
            ),
{
    let wanted: u128 = rank(values);
    let mut low: usize = 0;
    let mut high: usize = groups.len();
    while low < high
        invariant
            low <= high <= groups@.len(),
            wanted == rank_of(values@),
            groups_ordered(groups@),
            forall|k: int|
                0 <= k < low ==> rank_of((#[trigger] groups@[k]).values@) < rank_of(values@),
            forall|k: int|
                high <= k < groups@.len() ==> rank_of(values@) <= rank_of(
                    (#[trigger] groups@[k]).values@,
                ),
        decreases high - low,
    {
        let middle: usize = low + (high - low) / 2;
        let found: u128 = rank(&groups[middle].values);
        if found < wanted {
            proof {
                assert forall|k: int| 0 <= k < middle + 1 implies rank_of(
                    (#[trigger] groups@[k]).values@,
                ) < rank_of(values@) by {
                    if k < middle {
                        assert(rank_of(groups@[k].values@) < rank_of(groups@[middle as int].values@));
                    }
                }
            }
            low = middle + 1;
        } else {
            proof {
                assert forall|k: int| middle <= k < groups@.len() implies rank_of(values@)
                    <= rank_of((#[trigger] groups@[k]).values@) by {
                    if k > middle {
                        assert(rank_of(groups@[middle as int].values@) < rank_of(groups@[k].values@));
                    }
                }
            }
            high = middle;
        }
    }
    low
}

fn append_rects(target: &mut Vec<IntRect>, more: &Vec<IntRect>)
    ensures
        final(target)@ == old(target)@ + more@,
{
    let ghost before = target@;
    let mut i: usize = 0;
    while i < more.len()
        invariant
            i <= more@.len(),
            target@ == before + more@.take(i as int),
        decreases more@.len() - i,
    {
        target.push(more[i]);
        proof {
            assert(more@.take(i + 1) =~= more@.take(i as int).push(more@[i as int]));
        }
        i = i + 1;
    }
    assert(more@.take(more@.len() as int) =~= more@);
}

/// A cell joins the group of its values.
proof fn lemma_group_extended(
    given: Seq<Group>,
    now: Seq<Group>,
    cells: Seq<ProjectedCell>,
    cell: ProjectedCell,
    place: int,
    e: int,
)
    requires
        are_groups(given, cells, e),
        0 <= place < given.len(),
        given[place].values@ == cell.values@,
        now.len() == given.len(),
        forall|k: int| 0 <= k < now.len() && k != place ==> #[trigger] now[k] == given[k],
        now[place].values == given[place].values,
        now[place].rectangles@ == given[place].rectangles@ + cell_rectangles(cell, e),
    ensures
        are_groups(now, cells.push(cell), e),
{
    let all = cells.push(cell);
    assert(all.drop_last() =~= cells);
    assert(all.last() == cell);
    assert forall|g: int| 0 <= g < now.len() implies {
        let group = #[trigger] now[g];
        &&& group.rectangles@.len() > 0
        &&& group.rectangles@ == rectangles_with(all, group.values@, e)
    } by {
        if g != place {
            lemma_rank(given[g].values@, given[place].values@);
            if g < place {
                assert(rank_of(given[g].values@) < rank_of(given[place].values@));
            } else {
                assert(rank_of(given[place].values@) < rank_of(given[g].values@));
            }
        }
    }
    assert(groups_ordered(now)) by {
        assert forall|i: int, j: int|
            #![trigger now[i], now[j]]
            0 <= i < j < now.len() implies rank_of(now[i].values@) < rank_of(
            now[j].values@,
        ) by {
            assert(rank_of(given[i].values@) < rank_of(given[j].values@));
        }
    }
    assert forall|values: Seq<CompactOptI32>| #[trigger]
        rectangles_with(all, values, e).len() > 0 implies has_group(now, values) by {
        if values == cell.values@ {
            assert(now[place].values@ == values);
        } else {
            assert(rectangles_with(cells, values, e).len() > 0);
            assert(has_group(given, values));
            let g = choose|g: int|
                0 <= g < given.len() && (#[trigger] given[g]).values@ == values;
            assert(now[g].values@ == values);
        }
    }
}

/// A cell starts a group of its own.
proof fn lemma_group_inserted(
    given: Seq<Group>,
    now: Seq<Group>,
    cells: Seq<ProjectedCell>,
    cell: ProjectedCell,
    place: int,
    e: int,
    new: Group,
)
    requires
        are_groups(given, cells, e),
        0 <= place <= given.len(),
        forall|k: int|
            0 <= k < place ==> rank_of((#[trigger] given[k]).values@) < rank_of(cell.values@),
        forall|k: int|
            place <= k < given.len() ==> rank_of(cell.values@) <= rank_of(
                (#[trigger] given[k]).values@,
            ),
        place < given.len() ==> rank_of(given[place].values@) != rank_of(cell.values@),
        new.values@ == cell.values@,
        new.rectangles@ == cell_rectangles(cell, e),
        new.rectangles@.len() > 0,
        now == given.insert(place, new),
    ensures
        are_groups(now, cells.push(cell), e),
{
    let all = cells.push(cell);
    assert(all.drop_last() =~= cells);
    assert(all.last() == cell);
    assert forall|k: int| 0 <= k < given.len() implies rank_of(
        (#[trigger] given[k]).values@,
    ) != rank_of(cell.values@) by {
        if k > place {
            assert(rank_of(given[place].values@) < rank_of(given[k].values@));
        }
    }
    assert(!has_group(given, cell.values@)) by {
        if has_group(given, cell.values@) {
            let g = choose|g: int|
                0 <= g < given.len() && (#[trigger] given[g]).values@ == cell.values@;
            assert(rank_of(given[g].values@) != rank_of(cell.values@));
        }
    }
    assert(rectangles_with(cells, cell.values@, e).len() == 0);
    assert(rectangles_with(cells, cell.values@, e) =~= Seq::empty());
    assert(Seq::<IntRect>::empty() + new.rectangles@ =~= new.rectangles@);
    assert(groups_ordered(now)) by {
        assert forall|i: int, j: int|
            #![trigger now[i], now[j]]
            0 <= i < j < now.len() implies rank_of(now[i].values@) < rank_of(
            now[j].values@,
        ) by {
            if i == place {
                assert(now[j] == given[j - 1]);
                assert(rank_of(given[j - 1].values@) != rank_of(cell.values@));
            } else if j == place {
                assert(now[i] == given[i]);
            } else {
                let p = if i < place {
                    i
                } else {
                    i - 1
                };
                let q = if j < place {
                    j
                } else {
                    j - 1
                };
                assert(now[i] == given[p] && now[j] == given[q]);
                assert(rank_of(given[p].values@) < rank_of(given[q].values@));
            }
        }
    }
    assert forall|g: int| 0 <= g < now.len() implies {
        let group = #[trigger] now[g];
        &&& group.rectangles@.len() > 0
        &&& group.rectangles@ == rectangles_with(all, group.values@, e)
    } by {
        if g != place {
            let p = if g < place {
                g
            } else {
                g - 1
            };
            assert(now[g] == given[p]);
            assert(rank_of(given[p].values@) != rank_of(cell.values@));
        }
    }
    assert forall|values: Seq<CompactOptI32>| #[trigger]
        rectangles_with(all, values, e).len() > 0 implies has_group(now, values) by {
        if values == cell.values@ {
            assert(now[place].values@ == values);
        } else {
            assert(rectangles_with(cells, values, e).len() > 0);
            assert(has_group(given, values));
            let g = choose|g: int|
                0 <= g < given.len() && (#[trigger] given[g]).values@ == values;
            if g < place {
                assert(now[g].values@ == values);
            } else {
                assert(now[g + 1].values@ == values);
            }
        }
    }
}

/// Adds the rectangles of one more cell.
fn add_cell(groups: &mut Vec<Group>, cell: &ProjectedCell, extent: i32, Ghost(cells): Ghost<Seq<ProjectedCell>>)
    requires
        0 < extent <= 0x3fff_ffff,
        are_groups(old(groups)@, cells, extent as int),
    ensures
        are_groups(final(groups)@, cells.push(*cell), extent as int),
{
    let ghost e = extent as int;
    let ghost given = groups@;
    let ghost all = cells.push(*cell);
    let rectangles = cell_rects(cell, extent);
    proof {
        assert(all.drop_last() =~= cells);
        assert(all.last() == *cell);
    }
    if rectangles.len() == 0 {
        proof {
            assert forall|values: Seq<CompactOptI32>| #[trigger]
                rectangles_with(all, values, e) == rectangles_with(cells, values, e) by {
                assert(rectangles_with(cells, values, e) + Seq::<IntRect>::empty()
                    =~= rectangles_with(cells, values, e));
                assert(cell_rectangles(*cell, e) =~= Seq::empty());
            }
        }
        return ;
    }
    let place: usize = find_group(groups, &cell.values);
    let there = if place < groups.len() {
        rank(&groups[place].values) == rank(&cell.values)
    } else {
        false
    };
    if there {
        proof {
            lemma_rank(groups@[place as int].values@, cell.values@);
        }
        append_rects(&mut groups[place].rectangles, &rectangles);
        proof {
            lemma_group_extended(given, groups@, cells, *cell, place as int, e);
        }
    } else {
        let group = Group { values: cell.values, rectangles };
        let ghost new = group;
        groups.insert(place, group);
        proof {
            lemma_group_inserted(given, groups@, cells, *cell, place as int, e, new);
        }
    }
}

/// Sorts the cells of a tile by their values, and cuts them to the tile.
///
/// The groups come in the order of their values. Ordering them makes the output
/// a function of the input alone, where the order of a hash map would be seeded
/// afresh on every run, and the tiles would be equivalent but never
/// byte-identical, which rules out caching, delta distribution and signing.
pub fn make_rectangles_grouped_by_value(cells: &Vec<ProjectedCell>, extent: i32) -> (groups: Vec<
    Group,
>)
    requires
        0 < extent <= 0x3fff_ffff,
    ensures
        are_groups(groups@, cells@, extent as int),
{
    let mut groups: Vec<Group> = Vec::new();
    let mut i: usize = 0;
    proof {
        assert(cells@.take(0) =~= Seq::empty());
    }
    while i < cells.len()
        invariant
            i <= cells@.len(),
            0 < extent <= 0x3fff_ffff,
            are_groups(groups@, cells@.take(i as int), extent as int),
        decreases cells@.len() - i,
    {
        let ghost seen = cells@.take(i as int);
        let cell = cells[i];
        add_cell(&mut groups, &cell, extent, Ghost(seen));
        proof {
            assert(cells@.take(i + 1) =~= seen.push(cell));
        }
        i = i + 1;
    }
    assert(cells@.take(cells@.len() as int) =~= cells@);
    groups
}

/// One feature of a layer: its values, the polygons that its cells fill, and its
/// id.
#[derive(Debug)]
pub struct Feature {
    pub values: [CompactOptI32; 4],
    pub polygons: Vec<Polygon>,
    pub id: Option<u64>,
}

/// The feature is that of a group, in a layer with so many bands.
pub open spec fn is_feature(
    feature: Feature,
    cells: Seq<ProjectedCell>,
    extent: int,
    bands: int,
) -> bool {
    let rectangles = rectangles_with(cells, feature.values@, extent);
    &&& rectangles.len() > 0
    &&& is_union(rectangles, feature.polygons@)
    &&& match (feature.id, feature_id(feature.values@.take(bands))) {
        (Some(id), Some(number)) => id == number,
        (None, None) => true,
        _ => false,
    }
}

/// The features of a layer: one for all the values that have any rectangles, in
/// the order of the values.
pub open spec fn are_features(
    features: Seq<Feature>,
    cells: Seq<ProjectedCell>,
    extent: int,
    bands: int,
) -> bool {
    &&& forall|i: int, j: int|
        #![trigger features[i], features[j]]
        0 <= i < j < features.len() ==> precedes(features[i].values@, features[j].values@)
    &&& forall|i: int|
        0 <= i < features.len() ==> is_feature(#[trigger] features[i], cells, extent, bands)
    &&& forall|values: Seq<CompactOptI32>| #[trigger]
        rectangles_with(cells, values, extent).len() > 0 ==> exists|i: int|
            0 <= i < features.len() && (#[trigger] features[i]).values@ == values
}

/// What a feature says: its values, its polygons and its id.
pub type Said = (Seq<CompactOptI32>, Seq<(Seq<Coord>, Seq<Seq<Coord>>)>, Option<u64>);

pub open spec fn said_of(feature: Feature) -> Said {
    (feature.values@, polygons_view(feature.polygons@), feature.id)
}

/// The cells fill the same places of a tile with the same values.
pub open spec fn fill_alike(a: Seq<ProjectedCell>, b: Seq<ProjectedCell>, extent: int) -> bool {
    forall|values: Seq<CompactOptI32>, x: int, y: int|
        #![trigger covered(rectangles_with(a, values, extent), x, y)]
        #![trigger covered(rectangles_with(b, values, extent), x, y)]
        covered(rectangles_with(a, values, extent), x, y) == covered(
            rectangles_with(b, values, extent),
            x,
            y,
        )
}

/// The features of a layer are a function of what its cells fill: cells that fill the
/// same places with the same values, in whatever order they come and however they
/// are cut up, give the same features in the same order, polygon by polygon and
/// corner by corner.
pub proof fn lemma_same_features(
    p: Seq<Feature>,
    q: Seq<Feature>,
    a: Seq<ProjectedCell>,
    b: Seq<ProjectedCell>,
    extent: int,
    bands: int,
)
    requires
        0 < extent <= 0x3fff_ffff,
        fill_alike(a, b, extent),
        are_features(p, a, extent, bands),
        are_features(q, b, extent, bands),
    ensures
        p.len() == q.len(),
        forall|i: int| 0 <= i < p.len() ==> said_of(#[trigger] p[i]) == said_of(q[i]),
{
    lemma_same_values(p, q, a, b, extent, bands, p.len() as int);
    lemma_same_values(q, p, b, a, extent, bands, q.len() as int);
    assert forall|i: int| 0 <= i < p.len() implies said_of(#[trigger] p[i]) == said_of(q[i]) by {
        assert(p[i].values@ == q[i].values@);
        assert(is_feature(p[i], a, extent, bands) && is_feature(q[i], b, extent, bands));
        let v = p[i].values@;
        assert forall|x: int, y: int| #[trigger] covered(rectangles_with(a, v, extent), x, y)
            == covered(rectangles_with(b, v, extent), x, y) by {
        }
        lemma_one_union(
            rectangles_with(a, v, extent),
            rectangles_with(b, v, extent),
            p[i].polygons@,
            q[i].polygons@,
        );
    }
}

/// Values that have rectangles among some cells have them among all that fill alike.
proof fn lemma_values_found(
    q: Seq<Feature>,
    a: Seq<ProjectedCell>,
    b: Seq<ProjectedCell>,
    values: Seq<CompactOptI32>,
    extent: int,
    bands: int,
) -> (i: int)
    requires
        0 < extent <= 0x3fff_ffff,
        fill_alike(a, b, extent),
        are_features(q, b, extent, bands),
        rectangles_with(a, values, extent).len() > 0,
    ensures
        0 <= i < q.len(),
        q[i].values@ == values,
{
    let given = rectangles_with(a, values, extent);
    lemma_rectangles(a, values, extent);
    let first = given[0];
    assert(given[0].valid());
    let x = first.x1 as int;
    let y = first.y1 as int;
    assert(given[0].covers(x, y));
    assert(covered(given, x, y));
    assert(covered(rectangles_with(b, values, extent), x, y));
    assert(rectangles_with(b, values, extent).len() > 0);
    choose|i: int| 0 <= i < q.len() && (#[trigger] q[i]).values@ == values
}

proof fn lemma_same_values(
    p: Seq<Feature>,
    q: Seq<Feature>,
    a: Seq<ProjectedCell>,
    b: Seq<ProjectedCell>,
    extent: int,
    bands: int,
    n: int,
)
    requires
        0 < extent <= 0x3fff_ffff,
        fill_alike(a, b, extent),
        are_features(p, a, extent, bands),
        are_features(q, b, extent, bands),
        0 <= n <= p.len(),
    ensures
        n <= q.len(),
        forall|i: int| 0 <= i < n ==> (#[trigger] p[i]).values@ == q[i].values@,
    decreases n,
{
    if n > 0 {
        lemma_same_values(p, q, a, b, extent, bands, n - 1);
        let k = n - 1;
        assert(is_feature(p[k], a, extent, bands));
        let l = lemma_values_found(q, a, b, p[k].values@, extent, bands);
        if l < k {
            assert(p[l].values@ == q[l].values@);
            assert(precedes(p[l].values@, p[k].values@));
            assert(false);
        }
        if l > k {
            assert(precedes(q[k].values@, q[l].values@));
            assert(is_feature(q[k], b, extent, bands));
            let h = lemma_values_found(p, b, a, q[k].values@, extent, bands);
            if h < k {
                assert(p[h].values@ == q[h].values@);
                assert(precedes(q[h].values@, q[k].values@));
            } else if h > k {
                assert(precedes(p[k].values@, p[h].values@));
            }
            assert(false);
        }
    }
}

proof fn lemma_rectangles(cells: Seq<ProjectedCell>, values: Seq<CompactOptI32>, extent: int)
    requires
        0 < extent <= 0x3fff_ffff,
    ensures
        all_valid(rectangles_with(cells, values, extent)),
    decreases cells.len(),
{
    if cells.len() > 0 {
        lemma_rectangles(cells.drop_last(), values, extent);
    }
}

/// The rectangles of a cell cover the pixels that lie in the cell, as far as these lie
/// in the tile or in its buffer of two pixels in 256.
proof fn lemma_cell_covered(cell: ProjectedCell, extent: int, x: int, y: int)
    requires
        0 < extent <= 0x3fff_ffff,
    ensures
        covered(cell_rectangles(cell, extent), x, y) <==> {
            &&& -(2 * extent / 256) <= x < extent + 2 * extent / 256
            &&& -(2 * extent / 256) <= y < extent + 2 * extent / 256
            &&& cell.y1 <= y < cell.y2
            &&& cell.x1 <= x < cell.x2 || (cell.wrapped matches Some(turned) && turned.0 <= x
                < turned.1)
        },
{
    let own = cut_rectangle(
        cell.x1 as int,
        cell.y1 as int,
        cell.x2 as int,
        cell.y2 as int,
        extent,
    );
    let all = cell_rectangles(cell, extent);
    lemma_cut_covered(cell.x1 as int, cell.y1 as int, cell.x2 as int, cell.y2 as int, extent, x, y);
    if let Some((x1, x2)) = cell.wrapped {
        lemma_cut_covered(x1 as int, cell.y1 as int, x2 as int, cell.y2 as int, extent, x, y);
        let other = cut_rectangle(
            x1 as int,
            cell.y1 as int,
            x2 as int,
            cell.y2 as int,
            extent,
        );
        lemma_covered_both(own, other, x, y);
    } else {
        assert(all =~= own);
    }
}

proof fn lemma_cut_covered(x1: int, y1: int, x2: int, y2: int, extent: int, x: int, y: int)
    requires
        0 < extent <= 0x3fff_ffff,
        i32::MIN <= x1 <= i32::MAX,
        i32::MIN <= y1 <= i32::MAX,
        i32::MIN <= x2 <= i32::MAX,
        i32::MIN <= y2 <= i32::MAX,
    ensures
        covered(cut_rectangle(x1, y1, x2, y2, extent), x, y) <==> {
            &&& -(2 * extent / 256) <= x < extent + 2 * extent / 256
            &&& -(2 * extent / 256) <= y < extent + 2 * extent / 256
            &&& y1 <= y < y2
            &&& x1 <= x < x2
        },
{
    let rectangles = cut_rectangle(x1, y1, x2, y2, extent);
    if rectangles.len() > 0 {
        assert(rectangles.len() == 1);
        assert(covered(rectangles, x, y) == rectangles[0].covers(x, y)) by {
            if covered(rectangles, x, y) {
                let k = choose|k: int|
                    0 <= k < rectangles.len() && (#[trigger] rectangles[k]).covers(x, y);
                assert(k == 0);
            }
        }
    }
}

/// Rectangles cover what some of them cover.
proof fn lemma_covered_both(a: Seq<IntRect>, b: Seq<IntRect>, x: int, y: int)
    ensures
        covered(a + b, x, y) <==> covered(a, x, y) || covered(b, x, y),
{
    let all = a + b;
    if covered(all, x, y) {
        let k = choose|k: int| 0 <= k < all.len() && (#[trigger] all[k]).covers(x, y);
        if k < a.len() {
            assert(a[k].covers(x, y));
        } else {
            assert(b[k - a.len()].covers(x, y));
        }
    }
    if covered(a, x, y) {
        let k = choose|k: int| 0 <= k < a.len() && (#[trigger] a[k]).covers(x, y);
        assert(all[k].covers(x, y));
    }
    if covered(b, x, y) {
        let k = choose|k: int| 0 <= k < b.len() && (#[trigger] b[k]).covers(x, y);
        assert(all[k + a.len()].covers(x, y));
    }
}

/// A pixel is covered by the rectangles of a value if and only if it lies in a cell of
/// that value, where the cell was before it was cut, and in the tile or its buffer. A
/// cell that reaches over an edge is cut there; nothing of it is lost inside.
pub proof fn lemma_pixels_covered(
    cells: Seq<ProjectedCell>,
    values: Seq<CompactOptI32>,
    extent: int,
    x: int,
    y: int,
)
    requires
        0 < extent <= 0x3fff_ffff,
    ensures
        covered(rectangles_with(cells, values, extent), x, y) <==> {
            &&& -(2 * extent / 256) <= x < extent + 2 * extent / 256
            &&& -(2 * extent / 256) <= y < extent + 2 * extent / 256
            &&& exists|i: int|
                0 <= i < cells.len() && (#[trigger] cells[i]).values@ == values && cells[i].y1 <= y
                    < cells[i].y2 && (cells[i].x1 <= x < cells[i].x2 || (
                cells[i].wrapped matches Some(turned) && turned.0 <= x < turned.1))
        },
    decreases cells.len(),
{
    let all = rectangles_with(cells, values, extent);
    if cells.len() == 0 {
        assert(all =~= Seq::empty());
    } else {
        let before = cells.drop_last();
        let last = cells.last();
        lemma_pixels_covered(before, values, extent, x, y);
        lemma_cell_covered(last, extent, x, y);
        assert(cells[cells.len() - 1] == last);
        if last.values@ == values {
            lemma_covered_both(
                rectangles_with(before, values, extent),
                cell_rectangles(last, extent),
                x,
                y,
            );
        }
        assert forall|i: int| 0 <= i < before.len() implies before[i] == #[trigger] cells[i] by {
        }
        if covered(rectangles_with(before, values, extent), x, y) {
            let i = choose|i: int|
                0 <= i < before.len() && (#[trigger] before[i]).values@ == values && before[i].y1
                    <= y < before[i].y2 && (before[i].x1 <= x < before[i].x2 || (
                before[i].wrapped matches Some(turned) && turned.0 <= x < turned.1));
            assert(cells[i].values@ == values);
        }
    }
}

/// The polygons of a layer: some feature of a value covers a pixel if and only if the
/// pixel lies in a cell of that value and in the tile or its buffer.
pub proof fn lemma_features_cover(
    features: Seq<Feature>,
    cells: Seq<ProjectedCell>,
    extent: int,
    bands: int,
    values: Seq<CompactOptI32>,
    x: int,
    y: int,
)
    requires
        0 < extent <= 0x3fff_ffff,
        are_features(features, cells, extent, bands),
    ensures
        (exists|i: int, k: int|
            0 <= i < features.len() && features[i].values@ == values && 0 <= k
                < features[i].polygons@.len() && #[trigger] polygon_covers(
                features[i].polygons@[k],
                x,
                y,
            )) <==> {
            &&& -(2 * extent / 256) <= x < extent + 2 * extent / 256
            &&& -(2 * extent / 256) <= y < extent + 2 * extent / 256
            &&& exists|i: int|
                0 <= i < cells.len() && (#[trigger] cells[i]).values@ == values && cells[i].y1 <= y
                    < cells[i].y2 && (cells[i].x1 <= x < cells[i].x2 || (
                cells[i].wrapped matches Some(turned) && turned.0 <= x < turned.1))
        },
{
    let rectangles = rectangles_with(cells, values, extent);
    lemma_pixels_covered(cells, values, extent, x, y);
    if covered(rectangles, x, y) {
        assert(rectangles.len() > 0);
        let i = choose|i: int| 0 <= i < features.len() && (#[trigger] features[i]).values@ == values;
        assert(is_feature(features[i], cells, extent, bands));
        let polygons = features[i].polygons@;
        let k = choose|k: int|
            0 <= k < polygons.len() && polygon_covers(#[trigger] polygons[k], x, y);
        assert(polygon_covers(features[i].polygons@[k], x, y));
    }
    if exists|i: int, k: int|
        0 <= i < features.len() && features[i].values@ == values && 0 <= k
            < features[i].polygons@.len() && #[trigger] polygon_covers(
            features[i].polygons@[k],
            x,
            y,
        ) {
        let (i, k) = choose|i: int, k: int|
            0 <= i < features.len() && features[i].values@ == values && 0 <= k
                < features[i].polygons@.len() && #[trigger] polygon_covers(
                features[i].polygons@[k],
                x,
                y,
            );
        assert(is_feature(features[i], cells, extent, bands));
        assert(covered(rectangles, x, y));
    }
}

/// The features of a layer come in the order of their values, band by band, with a
/// missing value before all others, and there is one for values at most.
pub proof fn lemma_features_ordered(
    features: Seq<Feature>,
    cells: Seq<ProjectedCell>,
    extent: int,
    bands: int,
    i: int,
    j: int,
)
    requires
        are_features(features, cells, extent, bands),
        0 <= i < j < features.len(),
    ensures
        exists|b: int|
            0 <= b < 4 && #[trigger] lesser_value(features[i].values@[b]@, features[j].values@[b]@)
                && forall|c: int|
                0 <= c < b ==> features[i].values@[c]@ == #[trigger] features[j].values@[c]@,
{
    let p = features[i].values@;
    let q = features[j].values@;
    assert(precedes(p, q));
    let b = if p[0].raw != q[0].raw {
        0int
    } else if p[1].raw != q[1].raw {
        1
    } else if p[2].raw != q[2].raw {
        2
    } else {
        3
    };
    assert(lesser_value(features[i].values@[b]@, features[j].values@[b]@));
}

/// One value is less than another; none is less than all.
pub open spec fn lesser_value(a: Option<i32>, b: Option<i32>) -> bool {
    match (a, b) {
        (Some(a), Some(b)) => a < b,
        (None, Some(_)) => true,
        _ => false,
    }
}

/// An id is made of the values it stands for: the first two bands as numbers of 32
/// bits, the first above the second, and a single band alone.
pub proof fn lemma_id_parts(values: Seq<CompactOptI32>)
    ensures
        feature_id(values) is Some <==> 1 <= values.len() <= 2 && forall|i: int|
            0 <= i < values.len() ==> (#[trigger] values[i])@ is Some,
        values.len() == 1 && feature_id(values) is Some ==> {
            let id = feature_id(values)->0;
            0 <= id < 0x1_0000_0000 && (id - values[0]@->0) % 0x1_0000_0000 == 0
        },
        values.len() == 2 && feature_id(values) is Some ==> {
            let id = feature_id(values)->0;
            &&& 0 <= id < 0x1_0000_0000_0000_0000
            &&& (id / 0x1_0000_0000 - values[0]@->0) % 0x1_0000_0000 == 0
            &&& (id % 0x1_0000_0000 - values[1]@->0) % 0x1_0000_0000 == 0
        },
{
    if values.len() == 1 {
        assert(values[0]@ is Some ==> feature_id(values) is Some);
    }
    if values.len() == 2 {
        assert(values[0]@ is Some && values[1]@ is Some ==> feature_id(values) is Some);
    }
}

/// Turns the cells of a tile into features: the cells of equal values merge into
/// polygons.
///
/// An id is only set when it can be made unique; beyond two bands no id is better
/// than a colliding one, since consumers use it to carry per-feature state.
pub fn layer_features(cells: &Vec<ProjectedCell>, extent: i32, bands: usize) -> (outcome: Result<
    Vec<Feature>,
    UnionError,
>)
    requires
        0 < extent <= 0x3fff_ffff,
        bands <= 4,
    ensures
        outcome matches Ok(features) && are_features(
            features@,
            cells@,
            extent as int,
            bands as int,
        ),
{
    let groups = make_rectangles_grouped_by_value(cells, extent);
    let ghost given = groups@;
    let ghost e = extent as int;
    let mut features: Vec<Feature> = Vec::new();
    for group in it: groups
        invariant
            it.seq() == given,
            are_groups(given, cells@, e),
            e == extent,
            0 < extent <= 0x3fff_ffff,
            bands <= 4,
            features@.len() == it.index(),
            forall|i: int|
                0 <= i < features@.len() ==> (#[trigger] features@[i]).values == given[i].values
                    && is_feature(features@[i], cells@, e, bands as int),
    {
        let ghost n = it.index() as int;
        proof {
            assert(given[n] == group);
            lemma_rectangles(cells@, group.values@, e);
        }
        let values = group.values;
        let ghost rectangles = group.rectangles@;
        let polygons = match union_rectangles(group.rectangles) {
            Ok(polygons) => polygons,
            Err(error) => {
                return Err(error);
            },
        };
        let id = first_id(&values, bands);
        features.push(Feature { values, polygons, id });
    }
    proof {
        assert forall|i: int, j: int|
            #![trigger features@[i], features@[j]]
            0 <= i < j < features@.len() implies precedes(
            features@[i].values@,
            features@[j].values@,
        ) by {
            assert(rank_of(given[i].values@) < rank_of(given[j].values@));
            lemma_rank(given[i].values@, given[j].values@);
        }
        assert forall|values: Seq<CompactOptI32>| #[trigger]
            rectangles_with(cells@, values, e).len() > 0 implies exists|i: int|
            0 <= i < features@.len() && (#[trigger] features@[i]).values@ == values by {
            assert(has_group(given, values));
            let g = choose|g: int|
                0 <= g < given.len() && (#[trigger] given[g]).values@ == values;
            assert(features@[g].values@ == values);
        }
    }
    Ok(features)
}

/// The id of the first bands.
fn first_id(values: &[CompactOptI32; 4], bands: usize) -> (id: Option<u64>)
    requires
        bands <= 4,
    ensures
        match (id, feature_id(values@.take(bands as int))) {
            (Some(id), Some(number)) => id == number,
            (None, None) => true,
            _ => false,
        },
{
    let mut first: Vec<CompactOptI32> = Vec::new();
    let mut i: usize = 0;
    while i < bands
        invariant
            i <= bands <= 4,
            first@ == values@.take(i as int),
        decreases bands - i,
    {
        first.push(values[i]);
        proof {
            assert(values@.take(i + 1) =~= values@.take(i as int).push(values@[i as int]));
        }
        i = i + 1;
    }
    unique_feature_id(first.as_slice())
}

/// No feature is empty: there is a pixel in the tile or its buffer that one of its
/// polygons covers. Its id is made of as many of its values as the layer has bands, where
/// these make an id at all.
pub proof fn lemma_feature_filled(
    features: Seq<Feature>,
    cells: Seq<ProjectedCell>,
    extent: int,
    bands: int,
    i: int,
) -> (pixel: (int, int))
    requires
        0 < extent <= 0x3fff_ffff,
        are_features(features, cells, extent, bands),
        0 <= i < features.len(),
    ensures
        exists|k: int|
            0 <= k < features[i].polygons@.len() && polygon_covers(
                #[trigger] features[i].polygons@[k],
                pixel.0,
                pixel.1,
            ),
        -(2 * extent / 256) <= pixel.0 < extent + 2 * extent / 256,
        -(2 * extent / 256) <= pixel.1 < extent + 2 * extent / 256,
        features[i].id is Some <==> feature_id(features[i].values@.take(bands)) is Some,
        features[i].id is Some ==> features[i].id->0 == feature_id(
            features[i].values@.take(bands),
        )->0,
{
    assert(is_feature(features[i], cells, extent, bands));
    let values = features[i].values@;
    let given = rectangles_with(cells, values, extent);
    lemma_rectangles(cells, values, extent);
    assert(given[0].valid());
    let (x, y) = (given[0].x1 as int, given[0].y1 as int);
    assert(given[0].covers(x, y));
    assert(covered(given, x, y));
    lemma_pixels_covered(cells, values, extent, x, y);
    let polygons = features[i].polygons@;
    let k = choose|k: int| 0 <= k < polygons.len() && polygon_covers(#[trigger] polygons[k], x, y);
    assert(polygon_covers(features[i].polygons@[k], x, y));
    (x, y)
}

} // verus!
