//! Sorting rings into exteriors and holes, and cutting each hole out of the
//! exterior around it.

use vstd::prelude::*;

use crate::contour::UnionError;
use crate::geometry::{
    bounds, bounds_of, closed, contains, doubled_area, encloses, signed_area, Bounds, Coord,
    LineString, Polygon,
};

verus! {

/// The numbers of the rings, out of the first `n`, that run clockwise.
pub open spec fn exterior_ids(rings: Seq<LineString>, n: nat) -> Seq<int>
    decreases n,
{
    if n == 0 {
        Seq::empty()
    } else if doubled_area(rings[n - 1].0@) > 0 {
        exterior_ids(rings, (n - 1) as nat).push(n - 1)
    } else {
        exterior_ids(rings, (n - 1) as nat)
    }
}

/// The numbers of the rings, out of the first `n`, that do not.
pub open spec fn hole_ids(rings: Seq<LineString>, n: nat) -> Seq<int>
    decreases n,
{
    if n == 0 {
        Seq::empty()
    } else if doubled_area(rings[n - 1].0@) > 0 {
        hole_ids(rings, (n - 1) as nat)
    } else {
        hole_ids(rings, (n - 1) as nat).push(n - 1)
    }
}

/// The point lies in the box around the ring.
pub open spec fn in_bounds(ring: Seq<Coord>, p: Coord) -> bool {
    &&& exists|i: int| 0 <= i < ring.len() && (#[trigger] ring[i]).x <= p.x
    &&& exists|i: int| 0 <= i < ring.len() && p.x <= (#[trigger] ring[i]).x
    &&& exists|i: int| 0 <= i < ring.len() && (#[trigger] ring[i]).y <= p.y
    &&& exists|i: int| 0 <= i < ring.len() && p.y <= (#[trigger] ring[i]).y
}

/// The ring goes around the cell at the lower right of the point.
pub open spec fn goes_around(ring: Seq<Coord>, p: Coord) -> bool {
    in_bounds(ring, p) && encloses(ring, p.x as int, p.y as int)
}

/// Of the exteriors around the point, number `k` is the first of the smallest.
pub open spec fn holder(rings: Seq<LineString>, ids: Seq<int>, p: Coord, k: int) -> bool {
    &&& 0 <= k < ids.len()
    &&& goes_around(rings[ids[k]].0@, p)
    &&& forall|j: int|
        0 <= j < ids.len() && goes_around(rings[#[trigger] ids[j]].0@, p) ==> {
            let a = doubled_area(rings[ids[k]].0@);
            let b = doubled_area(rings[ids[j]].0@);
            a < b || (a == b && k <= j)
        }
}

/// The holes, out of the first `n`, that exterior number `k` holds.
pub open spec fn held(
    rings: Seq<LineString>,
    ids: Seq<int>,
    holes: Seq<int>,
    k: int,
    n: nat,
) -> Seq<int>
    decreases n,
{
    if n == 0 {
        Seq::empty()
    } else if holder(rings, ids, rings[holes[n - 1]].0@[0], k) {
        held(rings, ids, holes, k, (n - 1) as nat).push(holes[n - 1])
    } else {
        held(rings, ids, holes, k, (n - 1) as nat)
    }
}

/// The polygons are the exteriors, each with the holes that it holds.
pub open spec fn assembled(rings: Seq<LineString>, polygons: Seq<Polygon>) -> bool {
    let ids = exterior_ids(rings, rings.len());
    let holes = hole_ids(rings, rings.len());
    &&& polygons.len() == ids.len()
    &&& forall|k: int|
        0 <= k < ids.len() ==> {
            let own = held(rings, ids, holes, k, holes.len());
            &&& (#[trigger] polygons[k]).exterior.0@ == closed(rings[ids[k]].0@)
            &&& polygons[k].interiors@.len() == own.len()
            &&& forall|i: int|
                0 <= i < own.len() ==> (#[trigger] polygons[k].interiors@[i]).0@ == closed(
                    rings[own[i]].0@,
                )
        }
}

/// Some exterior goes around the point.
pub open spec fn has_holder(rings: Seq<LineString>, ids: Seq<int>, p: Coord) -> bool {
    exists|j: int| 0 <= j < ids.len() && goes_around(rings[#[trigger] ids[j]].0@, p)
}

/// An exterior ring while its holes are still being assigned to it.
struct Ring {
    area: i128,
    bounds: Bounds,
    exterior: LineString,
    interiors: Vec<LineString>,
}

impl Ring {
    spec fn wf(self, ring: LineString) -> bool {
        &&& self.exterior == ring
        &&& self.area == doubled_area(ring.0@)
        &&& bounds_of(ring.0@, self.bounds)
    }

    /// The bounds reject nearly every ring for the price of four comparisons,
    /// which keeps the ray casting off the hot path.
    fn contains(&self, point: Coord) -> (inside: bool)
        requires
            bounds_of(self.exterior.0@, self.bounds),
        ensures
            inside == goes_around(self.exterior.0@, point),
    {
        let b = self.bounds;
        let near = b.x1 <= point.x && point.x <= b.x2 && b.y1 <= point.y && point.y <= b.y2;
        proof {
            let s = self.exterior.0@;
            if s.len() > 0 {
                let i1 = choose|i: int| 0 <= i < s.len() && (#[trigger] s[i]).x == b.x1;
                let i2 = choose|i: int| 0 <= i < s.len() && (#[trigger] s[i]).x == b.x2;
                let j1 = choose|i: int| 0 <= i < s.len() && (#[trigger] s[i]).y == b.y1;
                let j2 = choose|i: int| 0 <= i < s.len() && (#[trigger] s[i]).y == b.y2;
                assert(s[i1].x == b.x1 && s[i2].x == b.x2 && s[j1].y == b.y1 && s[j2].y == b.y2);
            }
            assert(near == in_bounds(s, point));
        }
        near && contains(&self.exterior, point)
    }
}

/// The smallest of the rings around the point, and of several the first.
fn find_holder(
    polygons: &Vec<Ring>,
    point: Coord,
    Ghost(rings): Ghost<Seq<LineString>>,
    Ghost(ids): Ghost<Seq<int>>,
) -> (found: Option<usize>)
    requires
        polygons@.len() == ids.len(),
        forall|k: int| 0 <= k < ids.len() ==> (#[trigger] polygons@[k]).wf(rings[ids[k]]),
    ensures
        match found {
            Some(k) => holder(rings, ids, point, k as int),
            None => !has_holder(rings, ids, point),
        },
{
    let mut found: Option<usize> = None;
    let mut next: usize = 0;
    while next < polygons.len()
        invariant
            next <= polygons@.len(),
            polygons@.len() == ids.len(),
            forall|k: int| 0 <= k < ids.len() ==> (#[trigger] polygons@[k]).wf(rings[ids[k]]),
            match found {
                Some(k) => {
                    &&& k < next
                    &&& goes_around(rings[ids[k as int]].0@, point)
                    &&& forall|j: int|
                        0 <= j < next && goes_around(rings[#[trigger] ids[j]].0@, point) ==> {
                            let a = doubled_area(rings[ids[k as int]].0@);
                            let b = doubled_area(rings[ids[j]].0@);
                            a < b || (a == b && k <= j)
                        }
                },
                None => forall|j: int|
                    0 <= j < next ==> !goes_around(rings[#[trigger] ids[j]].0@, point),
            },
        decreases polygons@.len() - next,
    {
        proof {
            assert(polygons@[next as int].wf(rings[ids[next as int]]));
            if let Some(k) = found {
                assert(polygons@[k as int].wf(rings[ids[k as int]]));
            }
        }
        if polygons[next].contains(point) {
            let better = match found {
                Some(k) => polygons[next].area < polygons[k].area,
                None => true,
            };
            if better {
                found = Some(next);
            }
        }
        next = next + 1;
    }
    found
}

/// The rings still to be given out, and those given out so far.
spec fn gives(
    polygons: Seq<Ring>,
    rings: Seq<LineString>,
    ids: Seq<int>,
    holes: Seq<int>,
    n: nat,
) -> bool {
    &&& polygons.len() == ids.len()
    &&& forall|k: int|
        0 <= k < ids.len() ==> {
            let own = held(rings, ids, holes, k, n);
            &&& (#[trigger] polygons[k]).wf(rings[ids[k]])
            &&& polygons[k].interiors@.len() == own.len()
            &&& forall|i: int|
                0 <= i < own.len() ==> #[trigger] polygons[k].interiors@[i] == rings[own[i]]
        }
}

/// Makes polygons of rings: a ring that runs clockwise is an exterior, any
/// other is a hole in the smallest exterior around it.
pub fn contours_to_polygons(contours: Vec<LineString>) -> (outcome: Result<
    Vec<Polygon>,
    UnionError,
>)
    ensures
        outcome matches Ok(polygons) ==> assembled(contours@, polygons@),
        outcome == Err::<Vec<Polygon>, UnionError>(UnionError::ZeroAreaRing) <==> exists|k: int|
            0 <= k < contours@.len() && doubled_area((#[trigger] contours@[k]).0@) == 0,
        outcome == Err::<Vec<Polygon>, UnionError>(UnionError::HoleWithoutExterior) <==> {
            &&& forall|k: int|
                0 <= k < contours@.len() ==> doubled_area((#[trigger] contours@[k]).0@) != 0
            &&& exists|k: int|
                0 <= k < contours@.len() && doubled_area((#[trigger] contours@[k]).0@) < 0
                    && !has_holder(
                    contours@,
                    exterior_ids(contours@, contours@.len()),
                    contours@[k].0@[0],
                )
        },
        outcome is Ok || outcome == Err::<Vec<Polygon>, UnionError>(UnionError::ZeroAreaRing)
            || outcome == Err::<Vec<Polygon>, UnionError>(UnionError::HoleWithoutExterior),
{
    let ghost rings = contours@;
    let count: usize = contours.len();
    let mut polygons: Vec<Ring> = Vec::new();
    let mut holes: Vec<LineString> = Vec::new();
    for contour in it: contours
        invariant
            it.seq() == rings,
            count == rings.len(),
            forall|k: int|
                0 <= k < it.index() ==> doubled_area((#[trigger] rings[k]).0@) != 0,
            polygons@.len() == exterior_ids(rings, it.index() as nat).len(),
            forall|k: int|
                0 <= k < polygons@.len() ==> {
                    &&& (#[trigger] polygons@[k]).wf(rings[exterior_ids(rings, it.index() as nat)[k]])
                    &&& polygons@[k].interiors@.len() == 0
                },
            holes@.len() == hole_ids(rings, it.index() as nat).len(),
            forall|k: int|
                0 <= k < holes@.len() ==> #[trigger] holes@[k] == rings[hole_ids(
                    rings,
                    it.index() as nat,
                )[k]],
    {
        let ghost n = it.index() as int;
        assert(contour == rings[n]);
        let area: i128 = signed_area(&contour);
        if area == 0 {
            assert(doubled_area(rings[n].0@) == 0);
            return Err(UnionError::ZeroAreaRing);
        }
        if area > 0 {
            let b = bounds(&contour);
            polygons.push(
                Ring { area, bounds: b, exterior: contour, interiors: Vec::new() },
            );
        } else {
            holes.push(contour);
        }
    }
    let ghost ids = exterior_ids(rings, rings.len());
    let ghost holes_ids = hole_ids(rings, rings.len());
    let ghost open = holes@;
    for hole in it: holes
        invariant
            it.seq() == open,
            open.len() == holes_ids.len(),
            forall|k: int| 0 <= k < rings.len() ==> doubled_area((#[trigger] rings[k]).0@) != 0,
            ids == exterior_ids(rings, rings.len()),
            holes_ids == hole_ids(rings, rings.len()),
            forall|k: int| 0 <= k < open.len() ==> #[trigger] open[k] == rings[holes_ids[k]],
            rings == contours@,
            gives(polygons@, rings, ids, holes_ids, it.index() as nat),
            forall|k: int|
                0 <= k < it.index() ==> has_holder(
                    rings,
                    ids,
                    rings[#[trigger] holes_ids[k]].0@[0],
                ),
    {
        let ghost n = it.index() as int;
        assert(hole == open[n]);
        proof {
            lemma_hole_ids(rings, rings.len(), n);
            if hole.0@.len() == 0 {
                assert(doubled_area(rings[holes_ids[n]].0@) == 0);
            }
        }
        let sample = hole.0[0];
        match find_holder(&polygons, sample, Ghost(rings), Ghost(ids)) {
            Some(k) => {
                let ghost before = polygons@;
                polygons[k].interiors.push(hole);
                proof {
                    assert(polygons@[k as int].interiors@ == before[k as int].interiors@.push(hole));
                    assert forall|j: int| 0 <= j < ids.len() implies {
                        let own = held(rings, ids, holes_ids, j, (n + 1) as nat);
                        &&& (#[trigger] polygons@[j]).wf(rings[ids[j]])
                        &&& polygons@[j].interiors@.len() == own.len()
                        &&& forall|i: int|
                            0 <= i < own.len() ==> #[trigger] polygons@[j].interiors@[i]
                                == rings[own[i]]
                    } by {
                        assert(before[j].wf(rings[ids[j]]));
                        let own = held(rings, ids, holes_ids, j, n as nat);
                        if j == k {
                            assert(holder(rings, ids, sample, j));
                        } else {
                            lemma_one_holder(rings, ids, sample, j, k as int);
                        }
                    }
                    let p = k as int;
                    assert(goes_around(rings[ids[p]].0@, sample));
                    assert(has_holder(rings, ids, rings[holes_ids[n]].0@[0]));
                }
            },
            None => {
                proof {
                    let q = holes_ids[n];
                    assert(doubled_area(rings[q].0@) < 0);
                    assert(!has_holder(rings, ids, rings[q].0@[0]));
                }
                return Err(UnionError::HoleWithoutExterior);
            },
        }
    }
    proof {
        assert forall|k: int|
            0 <= k < rings.len() && doubled_area((#[trigger] rings[k]).0@) < 0 implies has_holder(
            rings,
            ids,
            rings[k].0@[0],
        ) by {
            let i = lemma_hole_listed(rings, rings.len(), k);
            assert(holes_ids[i] == k);
        }
    }
    let ghost given = polygons@;
    let mut result: Vec<Polygon> = Vec::new();
    for ring in it: polygons
        invariant
            it.seq() == given,
            gives(given, rings, ids, holes_ids, holes_ids.len()),
            result@.len() == it.index(),
            forall|k: int|
                0 <= k < result@.len() ==> {
                    let own = held(rings, ids, holes_ids, k, holes_ids.len());
                    &&& (#[trigger] result@[k]).exterior.0@ == closed(rings[ids[k]].0@)
                    &&& result@[k].interiors@.len() == own.len()
                    &&& forall|i: int|
                        0 <= i < own.len() ==> (#[trigger] result@[k].interiors@[i]).0@ == closed(
                            rings[own[i]].0@,
                        )
                },
    {
        let ghost n = it.index() as int;
        assert(ring == given[n]);
        let ghost inner = ring.interiors@;
        let polygon = Polygon::new(ring.exterior, ring.interiors);
        proof {
            let own = held(rings, ids, holes_ids, n, holes_ids.len());
            assert(given[n].wf(rings[ids[n]]));
            assert forall|i: int| 0 <= i < own.len() implies (#[trigger] polygon.interiors@[i]).0@
                == closed(rings[own[i]].0@) by {
                assert(given[n].interiors@[i] == rings[own[i]]);
            }
        }
        result.push(polygon);
    }
    Ok(result)
}

proof fn lemma_one_holder(rings: Seq<LineString>, ids: Seq<int>, p: Coord, j: int, k: int)
    requires
        holder(rings, ids, p, k),
        j != k,
    ensures
        !holder(rings, ids, p, j),
{
    if holder(rings, ids, p, j) {
        assert(goes_around(rings[ids[j]].0@, p));
        assert(goes_around(rings[ids[k]].0@, p));
    }
}

/// What is listed as a hole does not run clockwise.
pub proof fn lemma_hole_ids(rings: Seq<LineString>, n: nat, i: int)
    requires
        n <= rings.len(),
        0 <= i < hole_ids(rings, n).len(),
    ensures
        0 <= hole_ids(rings, n)[i] < n,
        doubled_area(rings[hole_ids(rings, n)[i]].0@) <= 0,
    decreases n,
{
    if n > 0 {
        let shorter = hole_ids(rings, (n - 1) as nat);
        if i < shorter.len() {
            lemma_hole_ids(rings, (n - 1) as nat, i);
        }
    }
}

/// Every ring that does not run clockwise is listed as a hole.
pub proof fn lemma_hole_listed(rings: Seq<LineString>, n: nat, k: int) -> (i: int)
    requires
        n <= rings.len(),
        0 <= k < n,
        doubled_area(rings[k].0@) <= 0,
    ensures
        0 <= i < hole_ids(rings, n).len(),
        hole_ids(rings, n)[i] == k,
    decreases n,
{
    let shorter = hole_ids(rings, (n - 1) as nat);
    if k == n - 1 {
        shorter.len() as int
    } else {
        let i = lemma_hole_listed(rings, (n - 1) as nat, k);
        i
    }
}

pub proof fn lemma_exterior_ids(rings: Seq<LineString>, n: nat, i: int)
    requires
        n <= rings.len(),
        0 <= i < exterior_ids(rings, n).len(),
    ensures
        0 <= exterior_ids(rings, n)[i] < n,
        doubled_area(rings[exterior_ids(rings, n)[i]].0@) > 0,
    decreases n,
{
    if n > 0 {
        let shorter = exterior_ids(rings, (n - 1) as nat);
        if i < shorter.len() {
            lemma_exterior_ids(rings, (n - 1) as nat, i);
        }
    }
}

pub proof fn lemma_exterior_listed(rings: Seq<LineString>, n: nat, k: int) -> (i: int)
    requires
        n <= rings.len(),
        0 <= k < n,
        doubled_area(rings[k].0@) > 0,
    ensures
        0 <= i < exterior_ids(rings, n).len(),
        exterior_ids(rings, n)[i] == k,
    decreases n,
{
    let shorter = exterior_ids(rings, (n - 1) as nat);
    if k == n - 1 {
        shorter.len() as int
    } else {
        let i = lemma_exterior_listed(rings, (n - 1) as nat, k);
        i
    }
}

/// The exteriors are the rings of positive area, in the order of the rings, each of them
/// closed.
pub proof fn lemma_exteriors(rings: Seq<LineString>, polygons: Seq<Polygon>, k: int)
    requires
        assembled(rings, polygons),
    ensures
        forall|r: int|
            0 <= r < rings.len() && doubled_area((#[trigger] rings[r]).0@) > 0 ==> exists|k: int|
                0 <= k < polygons.len() && (#[trigger] polygons[k]).exterior.0@ == closed(
                    rings[r].0@,
                ),
        0 <= k < polygons.len() ==> exists|r: int|
            0 <= r < rings.len() && doubled_area((#[trigger] rings[r]).0@) > 0
                && polygons[k].exterior.0@ == closed(rings[r].0@),
        polygons.len() == rings.filter(|ring: LineString| doubled_area(ring.0@) > 0).len(),
{
    let n = rings.len();
    let ids = exterior_ids(rings, n);
    lemma_exterior_numbers(rings, n);
    assert forall|r: int|
        0 <= r < rings.len() && doubled_area((#[trigger] rings[r]).0@) > 0 implies exists|k: int|
        0 <= k < polygons.len() && (#[trigger] polygons[k]).exterior.0@ == closed(
            rings[r].0@,
        ) by {
        assert(ids.contains(r));
        let k = choose|k: int| 0 <= k < ids.len() && ids[k] == r;
        assert(polygons[k].exterior.0@ == closed(rings[ids[k]].0@));
    }
    if 0 <= k < polygons.len() {
        let r = ids[k];
        assert(doubled_area(rings[r].0@) > 0);
    }
    assert(rings.take(n as int) =~= rings);
}

proof fn lemma_exterior_numbers(rings: Seq<LineString>, n: nat)
    requires
        n <= rings.len(),
    ensures
        forall|r: int|
            0 <= r < n ==> (exterior_ids(rings, n).contains(r) <==> doubled_area(
                (#[trigger] rings[r]).0@,
            ) > 0),
        forall|k: int|
            0 <= k < exterior_ids(rings, n).len() ==> 0 <= #[trigger] exterior_ids(rings, n)[k] < n
                && doubled_area(rings[exterior_ids(rings, n)[k]].0@) > 0,
        exterior_ids(rings, n).len() == rings.take(n as int).filter(
            |ring: LineString| doubled_area(ring.0@) > 0,
        ).len(),
    decreases n,
{
    reveal(Seq::filter);
    if n > 0 {
        let before = exterior_ids(rings, (n - 1) as nat);
        let now = exterior_ids(rings, n);
        lemma_exterior_numbers(rings, (n - 1) as nat);
        assert(rings.take(n as int).drop_last() =~= rings.take(n - 1));
        assert(rings.take(n as int).last() == rings[n - 1]);
        assert forall|r: int| 0 <= r < n implies (now.contains(r) <==> doubled_area(
            (#[trigger] rings[r]).0@,
        ) > 0) by {
            if now.contains(r) {
                let k = choose|k: int| 0 <= k < now.len() && now[k] == r;
                if k < before.len() {
                    assert(before[k] == r);
                    assert(before.contains(r));
                }
            }
            if r < n - 1 && before.contains(r) {
                let k = choose|k: int| 0 <= k < before.len() && before[k] == r;
                assert(now[k] == r);
            }
            if r == n - 1 && doubled_area(rings[r].0@) > 0 {
                assert(now[before.len() as int] == r);
            }
        }
    }
}

/// A ring that is a hole of a polygon starts inside of its exterior, and inside of no
/// exterior of a lesser area.
pub proof fn lemma_holes(rings: Seq<LineString>, polygons: Seq<Polygon>, k: int, i: int)
    requires
        assembled(rings, polygons),
        0 <= k < polygons.len(),
        0 <= i < polygons[k].interiors@.len(),
    ensures
        exists|h: int|
            0 <= h < rings.len() && polygons[k].interiors@[i].0@ == closed(
                (#[trigger] rings[h]).0@,
            ) && doubled_area(rings[h].0@) <= 0 && is_hole_of(rings, h, k),
{
    let n = rings.len();
    let ids = exterior_ids(rings, n);
    let holes = hole_ids(rings, n);
    let own = held(rings, ids, holes, k, holes.len());
    lemma_held_numbers(rings, ids, holes, k, holes.len());
    assert(polygons[k].interiors@[i].0@ == closed(rings[own[i]].0@));
    let h = own[i];
    assert(holes.contains(h));
    let m = choose|m: int| 0 <= m < holes.len() && holes[m] == h;
    lemma_hole_ids(rings, n, m);
    assert(is_hole_of(rings, h, k));
}

/// The first point of a ring lies inside of exterior number `k`, and no exterior around
/// the point has a lesser area.
pub open spec fn is_hole_of(rings: Seq<LineString>, h: int, k: int) -> bool {
    let ids = exterior_ids(rings, rings.len());
    let p = rings[h].0@[0];
    &&& 0 <= k < ids.len()
    &&& encloses(rings[ids[k]].0@, p.x as int, p.y as int)
    &&& forall|j: int|
        0 <= j < ids.len() && goes_around(rings[#[trigger] ids[j]].0@, p) ==> doubled_area(
            rings[ids[k]].0@,
        ) <= doubled_area(rings[ids[j]].0@)
}

proof fn lemma_held_numbers(
    rings: Seq<LineString>,
    ids: Seq<int>,
    holes: Seq<int>,
    k: int,
    n: nat,
)
    requires
        n <= holes.len(),
    ensures
        forall|i: int|
            0 <= i < held(rings, ids, holes, k, n).len() ==> {
                let h = #[trigger] held(rings, ids, holes, k, n)[i];
                holes.contains(h) && holder(rings, ids, rings[h].0@[0], k)
            },
        forall|m: int|
            0 <= m < n && holder(rings, ids, rings[#[trigger] holes[m]].0@[0], k) ==> held(
                rings,
                ids,
                holes,
                k,
                n,
            ).contains(holes[m]),
    decreases n,
{
    if n > 0 {
        let before = held(rings, ids, holes, k, (n - 1) as nat);
        let now = held(rings, ids, holes, k, n);
        lemma_held_numbers(rings, ids, holes, k, (n - 1) as nat);
        assert forall|m: int|
            0 <= m < n && holder(rings, ids, rings[#[trigger] holes[m]].0@[0], k) implies now.contains(
            holes[m],
        ) by {
            if m < n - 1 {
                let i = choose|i: int| 0 <= i < before.len() && before[i] == holes[m];
                assert(now[i] == holes[m]);
            } else {
                assert(now[before.len() as int] == holes[m]);
            }
        }
        assert forall|i: int| 0 <= i < now.len() implies {
            let h = #[trigger] now[i];
            holes.contains(h) && holder(rings, ids, rings[h].0@[0], k)
        } by {
            if i < before.len() {
                assert(before[i] == now[i]);
            } else {
                assert(now[i] == holes[n - 1]);
            }
        }
    }
}

/// No hole is lost: a ring that is no exterior is cut out of the first of the smallest
/// exteriors around its first point.
pub proof fn lemma_hole_cut(rings: Seq<LineString>, polygons: Seq<Polygon>, h: int, k: int)
    requires
        assembled(rings, polygons),
        0 <= h < rings.len(),
        doubled_area(rings[h].0@) <= 0,
        holder(rings, exterior_ids(rings, rings.len()), rings[h].0@[0], k),
    ensures
        0 <= k < polygons.len(),
        exists|i: int|
            0 <= i < polygons[k].interiors@.len() && (#[trigger] polygons[k].interiors@[i]).0@
                == closed(rings[h].0@),
{
    let n = rings.len();
    let ids = exterior_ids(rings, n);
    let holes = hole_ids(rings, n);
    let own = held(rings, ids, holes, k, holes.len());
    let m = lemma_hole_listed(rings, n, h);
    lemma_held_numbers(rings, ids, holes, k, holes.len());
    assert(own.contains(holes[m]));
    let i = choose|i: int| 0 <= i < own.len() && own[i] == h;
    assert(polygons[k].interiors@.len() == own.len());
    assert(polygons[k].interiors@[i].0@ == closed(rings[own[i]].0@));
}

} // verus!
