//! Axis-aligned bounding boxes over coordinate bit patterns.
//!
//! Minima and maxima are taken in the `coord_key` order, which agrees
//! with the order of the underlying `f32` values whenever they are
//! finite, so these boxes behave exactly like the float boxes they
//! stand for while staying in exact integer arithmetic.

use vstd::prelude::*;
use crate::point::{Point, spec_coord_key, coord_key};

verus! {

/// Bit pattern of the largest finite `f32`, the seed for minima.
pub const F32_MAX_BITS: u32 = 0x7F7F_FFFF;

/// Bit pattern of the smallest finite `f32`, the seed for maxima.
pub const F32_LOWEST_BITS: u32 = 0xFF7F_FFFF;

/// The smaller of two coordinates in key order.
pub open spec fn spec_coord_min(a: u32, b: u32) -> u32 {
    if spec_coord_key(a) <= spec_coord_key(b) {
        a
    } else {
        b
    }
}

/// The larger of two coordinates in key order.
pub open spec fn spec_coord_max(a: u32, b: u32) -> u32 {
    if spec_coord_key(a) >= spec_coord_key(b) {
        a
    } else {
        b
    }
}

#[verifier::when_used_as_spec(spec_coord_min)]
pub fn coord_min(a: u32, b: u32) -> (r: u32)
    ensures
        r == spec_coord_min(a, b),
{
    if coord_key(a) <= coord_key(b) {
        a
    } else {
        b
    }
}

#[verifier::when_used_as_spec(spec_coord_max)]
pub fn coord_max(a: u32, b: u32) -> (r: u32)
    ensures
        r == spec_coord_max(a, b),
{
    if coord_key(a) >= coord_key(b) {
        a
    } else {
        b
    }
}

/// A rectangle spanned by its two extreme corners.
#[derive(Clone, Copy, PartialEq, Eq, Structural, Debug)]
pub struct BoundingBox {
    pub min: Point,
    pub max: Point,
}

/// Whether `p` lies inside `b`, coordinatewise in key order.
pub open spec fn bbox_contains(b: BoundingBox, p: Point) -> bool {
    &&& spec_coord_key(b.min.lat) <= spec_coord_key(p.lat) <= spec_coord_key(b.max.lat)
    &&& spec_coord_key(b.min.lon) <= spec_coord_key(p.lon) <= spec_coord_key(b.max.lon)
}

/// The smallest box containing both arguments.
pub open spec fn spec_bbox_union(a: BoundingBox, b: BoundingBox) -> BoundingBox {
    BoundingBox {
        min: Point {
            lat: spec_coord_min(a.min.lat, b.min.lat),
            lon: spec_coord_min(a.min.lon, b.min.lon),
        },
        max: Point {
            lat: spec_coord_max(a.max.lat, b.max.lat),
            lon: spec_coord_max(a.max.lon, b.max.lon),
        },
    }
}

/// The smallest box containing `a` and the point `p`.
pub open spec fn spec_bbox_extend(a: BoundingBox, p: Point) -> BoundingBox {
    BoundingBox {
        min: Point {
            lat: spec_coord_min(a.min.lat, p.lat),
            lon: spec_coord_min(a.min.lon, p.lon),
        },
        max: Point {
            lat: spec_coord_max(a.max.lat, p.lat),
            lon: spec_coord_max(a.max.lon, p.lon),
        },
    }
}

/// The empty box: every union or extension replaces both corners.
pub open spec fn spec_bbox_empty() -> BoundingBox {
    BoundingBox {
        min: Point { lat: F32_MAX_BITS, lon: F32_MAX_BITS },
        max: Point { lat: F32_LOWEST_BITS, lon: F32_LOWEST_BITS },
    }
}

/// The union of a sequence of boxes folded onto a seed box.
pub open spec fn spec_bbox_union_fold(seed: BoundingBox, boxes: Seq<BoundingBox>) -> BoundingBox
    decreases boxes.len(),
{
    if boxes.len() == 0 {
        seed
    } else {
        spec_bbox_union(spec_bbox_union_fold(seed, boxes.drop_last()), boxes.last())
    }
}

impl BoundingBox {
    /// The corner with both minima.
    pub fn value_top_left(&self) -> (r: Point)
        ensures
            r == (Point { lat: self.min.lat, lon: self.min.lon }),
    {
        Point { lat: self.min.lat, lon: self.min.lon }
    }

    /// The corner with both maxima.
    pub fn value_bottom_right(&self) -> (r: Point)
        ensures
            r == (Point { lat: self.max.lat, lon: self.max.lon }),
    {
        Point { lat: self.max.lat, lon: self.max.lon }
    }

    /// The corner pairing the maximum longitude with the minimum latitude.
    pub fn value_top_right(&self) -> (r: Point)
        ensures
            r == (Point { lat: self.min.lat, lon: self.max.lon }),
    {
        Point { lat: self.min.lat, lon: self.max.lon }
    }

    /// The corner pairing the minimum longitude with the maximum latitude.
    pub fn value_bottom_left(&self) -> (r: Point)
        ensures
            r == (Point { lat: self.max.lat, lon: self.min.lon }),
    {
        Point { lat: self.max.lat, lon: self.min.lon }
    }

    /// The smallest box containing `self` and `other`.
    pub fn extends_with(&self, other: &BoundingBox) -> (r: BoundingBox)
        ensures
            r == spec_bbox_union(*self, *other),
    {
        BoundingBox {
            min: Point {
                lat: coord_min(self.min.lat, other.min.lat),
                lon: coord_min(self.min.lon, other.min.lon),
            },
            max: Point {
                lat: coord_max(self.max.lat, other.max.lat),
                lon: coord_max(self.max.lon, other.max.lon),
            },
        }
    }

    /// The smallest box containing `self` and the point `vertex`.
    pub fn extends_by_vertex(&self, vertex: &Point) -> (r: BoundingBox)
        ensures
            r == spec_bbox_extend(*self, *vertex),
    {
        BoundingBox {
            min: Point {
                lat: coord_min(self.min.lat, vertex.lat),
                lon: coord_min(self.min.lon, vertex.lon),
            },
            max: Point {
                lat: coord_max(self.max.lat, vertex.lat),
                lon: coord_max(self.max.lon, vertex.lon),
            },
        }
    }

    /// The corner coordinates as `(min lon, min lat, max lon, max lat)`
    /// bit patterns, the order the asset table stores.
    pub fn to_tuple(&self) -> (r: (u32, u32, u32, u32))
        ensures
            r == (self.min.lon, self.min.lat, self.max.lon, self.max.lat),
    {
        (self.min.lon, self.min.lat, self.max.lon, self.max.lat)
    }

    pub fn from_tuple(v: (u32, u32, u32, u32)) -> (r: BoundingBox)
        ensures
            r == (BoundingBox {
                min: Point { lat: v.1, lon: v.0 },
                max: Point { lat: v.3, lon: v.2 },
            }),
    {
        BoundingBox { min: Point { lat: v.1, lon: v.0 }, max: Point { lat: v.3, lon: v.2 } }
    }

    /// The tight box of a set of points: it contains every one of them,
    /// and each of its corner coordinates is attained by some point
    /// (or is the empty-box seed when no point beats it).
    pub fn from_vertices(vertices: &Vec<Point>) -> (r: BoundingBox)
        ensures
            forall|i: int| 0 <= i < vertices@.len() ==> bbox_contains(r, #[trigger] vertices@[i]),
            forall|i: int|
                0 <= i < vertices@.len() ==> spec_coord_key(r.min.lat) <= spec_coord_key(
                    #[trigger] vertices@[i].lat,
                ) && spec_coord_key(r.min.lon) <= spec_coord_key(vertices@[i].lon)
                    && spec_coord_key(r.max.lat) >= spec_coord_key(vertices@[i].lat)
                    && spec_coord_key(r.max.lon) >= spec_coord_key(vertices@[i].lon),
            r.min.lat == F32_MAX_BITS || exists|i: int|
                0 <= i < vertices@.len() && #[trigger] vertices@[i].lat == r.min.lat,
            r.min.lon == F32_MAX_BITS || exists|i: int|
                0 <= i < vertices@.len() && #[trigger] vertices@[i].lon == r.min.lon,
            r.max.lat == F32_LOWEST_BITS || exists|i: int|
                0 <= i < vertices@.len() && #[trigger] vertices@[i].lat == r.max.lat,
            r.max.lon == F32_LOWEST_BITS || exists|i: int|
                0 <= i < vertices@.len() && #[trigger] vertices@[i].lon == r.max.lon,
    {
        let mut acc = BoundingBox {
            min: Point { lat: F32_MAX_BITS, lon: F32_MAX_BITS },
            max: Point { lat: F32_LOWEST_BITS, lon: F32_LOWEST_BITS },
        };
        let mut i: usize = 0;
        while i < vertices.len()
            invariant
                i <= vertices@.len(),
                forall|j: int| 0 <= j < i ==> bbox_contains(acc, #[trigger] vertices@[j]),
                forall|j: int|
                    0 <= j < i ==> spec_coord_key(acc.min.lat) <= spec_coord_key(
                        #[trigger] vertices@[j].lat,
                    ) && spec_coord_key(acc.min.lon) <= spec_coord_key(vertices@[j].lon)
                        && spec_coord_key(acc.max.lat) >= spec_coord_key(vertices@[j].lat)
                        && spec_coord_key(acc.max.lon) >= spec_coord_key(vertices@[j].lon),
                acc.min.lat == F32_MAX_BITS || exists|j: int|
                    0 <= j < i && #[trigger] vertices@[j].lat == acc.min.lat,
                acc.min.lon == F32_MAX_BITS || exists|j: int|
                    0 <= j < i && #[trigger] vertices@[j].lon == acc.min.lon,
                acc.max.lat == F32_LOWEST_BITS || exists|j: int|
                    0 <= j < i && #[trigger] vertices@[j].lat == acc.max.lat,
                acc.max.lon == F32_LOWEST_BITS || exists|j: int|
                    0 <= j < i && #[trigger] vertices@[j].lon == acc.max.lon,
            decreases vertices@.len() - i,
        {
            acc = acc.extends_by_vertex(&vertices[i]);
            i += 1;
        }
        acc
    }
}

} // verus!
