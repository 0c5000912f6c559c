//! Geographic boxes, with coordinates as the bits of doubles.

use vstd::prelude::*;

use crate::double::{is_less, is_nan, less, nan, order_key};

verus! {

#[derive(Clone, Copy, Debug, PartialEq, Eq, Structural)]
pub struct LngLat {
    pub lng: u64,
    pub lat: u64,
}

impl LngLat {
    pub fn new(lng: u64, lat: u64) -> (place: LngLat)
        ensures
            place == (LngLat { lng, lat }),
    {
        LngLat { lng, lat }
    }
}

#[derive(Clone, Copy, Debug, PartialEq, Eq, Structural)]
pub struct LngLatBox {
    pub min: LngLat,
    pub max: LngLat,
}

/// Two numbers are there, and the first is not the greater.
pub open spec fn at_most(a: u64, b: u64) -> bool {
    !is_nan(a) && !is_nan(b) && order_key(a) <= order_key(b)
}

fn is_at_most(a: u64, b: u64) -> (r: bool)
    ensures
        r == at_most(a, b),
{
    !nan(a) && !nan(b) && !less(b, a)
}

impl LngLatBox {
    /// The box between two corners, whichever they are.
    pub fn new(min: LngLat, max: LngLat) -> (area: LngLatBox)
        ensures
            area.min.lng == if is_less(max.lng, min.lng) {
                max.lng
            } else {
                min.lng
            },
            area.max.lng == if is_less(max.lng, min.lng) {
                min.lng
            } else {
                max.lng
            },
            area.min.lat == if is_less(max.lat, min.lat) {
                max.lat
            } else {
                min.lat
            },
            area.max.lat == if is_less(max.lat, min.lat) {
                min.lat
            } else {
                max.lat
            },
    {
        let mut low = min;
        let mut high = max;
        if less(high.lng, low.lng) {
            std::mem::swap(&mut low.lng, &mut high.lng);
        }
        if less(high.lat, low.lat) {
            std::mem::swap(&mut low.lat, &mut high.lat);
        }
        LngLatBox { min: low, max: high }
    }

    /// The two boxes share a point.
    pub open spec fn meets(self, target: LngLatBox) -> bool {
        &&& at_most(self.min.lng, target.max.lng)
        &&& at_most(target.min.lng, self.max.lng)
        &&& at_most(self.min.lat, target.max.lat)
        &&& at_most(target.min.lat, self.max.lat)
    }

    pub fn intersects_box(&self, target: &Self) -> (r: bool)
        ensures
            r == self.meets(*target),
    {
        is_at_most(self.min.lng, target.max.lng) && is_at_most(target.min.lng, self.max.lng)
            && is_at_most(self.min.lat, target.max.lat) && is_at_most(
            target.min.lat,
            self.max.lat,
        )
    }

    /// Boxes meet each other.
    pub proof fn lemma_meets_both_ways(self, target: LngLatBox)
        ensures
            self.meets(target) == target.meets(self),
    {
    }
}

/// Boxes of numbers meet if and only if neither lies wholly to one side of the other, in
/// longitude or in latitude; boxes that touch do meet.
pub proof fn lemma_meets(a: LngLatBox, b: LngLatBox)
    requires
        !is_nan(a.min.lng) && !is_nan(a.max.lng) && !is_nan(a.min.lat) && !is_nan(a.max.lat),
        !is_nan(b.min.lng) && !is_nan(b.max.lng) && !is_nan(b.min.lat) && !is_nan(b.max.lat),
    ensures
        a.meets(b) <==> !is_less(a.max.lng, b.min.lng) && !is_less(b.max.lng, a.min.lng)
            && !is_less(a.max.lat, b.min.lat) && !is_less(b.max.lat, a.min.lat),
{
}

} // verus!
