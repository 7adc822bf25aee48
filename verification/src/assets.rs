//! The runtime asset bundle and its queries.
//!
//! The offline pipeline's output — vertex array, triangle indices, the
//! two level-of-detail strip arrays, per-area boxes and station
//! positions, the scale-to-level table — packaged behind the query
//! interface the renderer reads at request time.

use vstd::prelude::*;
use std::collections::HashMap;
use crate::point::{Point, spec_coord_key, coord_key};
use crate::bbox::{BoundingBox, spec_bbox_union, spec_bbox_extend};

verus! {

broadcast use vstd::std_specs::hash::group_hash_axioms;

/// Latitude bit pattern of 90 degrees, the void minimum corner.
pub const LAT_90_BITS: u32 = 0x42B4_0000;

/// Longitude bit pattern of 180 degrees, the void minimum corner.
pub const LON_180_BITS: u32 = 0x4334_0000;

/// Latitude bit pattern of -90 degrees, the void maximum corner.
pub const LAT_NEG_90_BITS: u32 = 0xC2B4_0000;

/// Longitude bit pattern of -180 degrees, the void maximum corner.
pub const LON_NEG_180_BITS: u32 = 0xC334_0000;

/// The empty view: minima at the far positive corner, maxima at the far
/// negative one, so the first union overwrites both.
pub open spec fn spec_void_view_box() -> BoundingBox {
    BoundingBox {
        min: Point { lat: LAT_90_BITS, lon: LON_180_BITS },
        max: Point { lat: LAT_NEG_90_BITS, lon: LON_NEG_180_BITS },
    }
}

/// The level chosen for a view scale: the first table entry whose
/// threshold does not exceed the scale.
pub open spec fn spec_lod_lookup(m: Seq<(u32, usize)>, scale: u32) -> Option<usize>
    decreases m.len(),
{
    if m.len() == 0 {
        None
    } else if spec_coord_key(m[0].0) <= spec_coord_key(scale) {
        Some(m[0].1)
    } else {
        spec_lod_lookup(m.skip(1), scale)
    }
}

/// A scale below every threshold selects no level.
pub proof fn lemma_lookup_below_all(m: Seq<(u32, usize)>, scale: u32)
    requires
        forall|i: int|
            0 <= i < m.len() ==> spec_coord_key((#[trigger] m[i]).0) > spec_coord_key(scale),
    ensures
        spec_lod_lookup(m, scale) is None,
    decreases m.len(),
{
    if m.len() > 0 {
        assert(spec_coord_key(m[0].0) > spec_coord_key(scale));
        assert forall|i: int|
            0 <= i < m.skip(1).len() implies spec_coord_key((#[trigger] m.skip(1)[i]).0)
                > spec_coord_key(scale) by {
            assert(m.skip(1) =~= m.subrange(1, m.len() as int));
            assert(m.skip(1)[i] == m[i + 1]);
        }
        lemma_lookup_below_all(m.skip(1), scale);
    }
}

/// The union of the boxes of the listed areas (codes without a box are
/// passed over), the epicenter joined in when present, grown from the
/// void view box. With no epicenter the box is the union of area boxes
/// alone.
pub open spec fn spec_view_box(
    boxes: Map<u32, BoundingBox>,
    codes: Seq<u32>,
    epicenter: Option<Point>,
) -> BoundingBox
    decreases codes.len(),
{
    if codes.len() > 0 {
        let prior = spec_view_box(boxes, codes.drop_last(), None);
        let with_area = if boxes.contains_key(codes.last()) {
            spec_bbox_union(prior, boxes[codes.last()])
        } else {
            prior
        };
        match epicenter {
            None => with_area,
            Some(p) => spec_bbox_extend(with_area, p),
        }
    } else {
        match epicenter {
            None => spec_void_view_box(),
            Some(p) => spec_bbox_extend(spec_void_view_box(), p),
        }
    }
}

/// The slice of the station array that belongs to one area: where its
/// stations start and how many there are.
#[derive(Clone, Copy, PartialEq, Eq, Structural, Debug)]
pub struct IntensityStationRange {
    pub start_i: usize,
    pub n: usize,
}

/// The asset bundle: what the offline pipeline produced, keyed for the
/// render path.
pub struct QueryInterface {
    /// Station positions as coordinate bit patterns, longitude then
    /// latitude.
    pub intensity_station_positions: Vec<(u32, u32)>,
    /// Per area code: the index of its nearest station, and its box.
    pub areas: HashMap<u32, (usize, BoundingBox)>,
    /// Station code to station index.
    pub station_codes: HashMap<u32, usize>,
    /// The shared vertex array (index 0 is the reserved dummy).
    pub vertices: Vec<Point>,
    /// Triangle corner indices of the base map.
    pub map_triangles: Vec<u32>,
    /// Sub-prefectural border strips, one per level.
    pub area_lines: Vec<Vec<u32>>,
    /// Prefectural border strips, one per level.
    pub pref_lines: Vec<Vec<u32>>,
    /// Scale thresholds (as bit patterns) to level indices.
    pub scale_level_map: Vec<(u32, usize)>,
}

impl QueryInterface {
    /// Station references and strip indices stay inside their arrays.
    pub open spec fn wf(self) -> bool {
        &&& forall|c: u32|
            self.areas@.contains_key(c) ==> (#[trigger] self.areas@[c]).0
                < self.intensity_station_positions@.len()
        &&& forall|c: u32|
            self.station_codes@.contains_key(c) ==> #[trigger] self.station_codes@[c]
                < self.intensity_station_positions@.len()
    }

    /// The bounding box recorded for an area code.
    pub fn query_bounding_box_by_area(&self, area_code: u32) -> (r: Option<BoundingBox>)
        ensures
            r is Some <==> self.areas@.contains_key(area_code),
            r is Some ==> r->0 == self.areas@[area_code].1,
    {
        match self.areas.get(&area_code) {
            Some(v) => Some(v.1),
            None => None,
        }
    }

    /// The position of the station nearest to an area, as longitude and
    /// latitude bit patterns.
    pub fn query_rendering_center_by_area(&self, area_code: u32) -> (r: Option<(u32, u32)>)
        requires
            self.wf(),
        ensures
            r is Some <==> self.areas@.contains_key(area_code),
            r is Some ==> r->0 == self.intensity_station_positions@[self.areas@[area_code].0 as int],
    {
        match self.areas.get(&area_code) {
            Some(v) => Some(self.intensity_station_positions[v.0]),
            None => None,
        }
    }

    /// The position of a station by its code.
    pub fn query_position_by_station_code(&self, intensity_station_code: u32) -> (r: Option<
        (u32, u32),
    >)
        requires
            self.wf(),
        ensures
            r is Some <==> self.station_codes@.contains_key(intensity_station_code),
            r is Some ==> r->0 == self.intensity_station_positions@[self.station_codes@[intensity_station_code] as int],
    {
        match self.station_codes.get(&intensity_station_code) {
            Some(i) => Some(self.intensity_station_positions[*i]),
            None => None,
        }
    }

    /// The level for a view scale: the first table entry whose threshold
    /// lies at or below the scale; none when the scale is below every
    /// threshold (the border draw is then skipped).
    pub fn query_lod_level_by_scale(&self, scale: u32) -> (r: Option<usize>)
        ensures
            r == spec_lod_lookup(self.scale_level_map@, scale),
    {
        let mut i: usize = 0;
        proof {
            assert(self.scale_level_map@.skip(0) =~= self.scale_level_map@);
        }
        while i < self.scale_level_map.len()
            invariant
                i <= self.scale_level_map@.len(),
                spec_lod_lookup(self.scale_level_map@, scale) == spec_lod_lookup(
                    self.scale_level_map@.skip(i as int),
                    scale,
                ),
            decreases self.scale_level_map@.len() - i,
        {
            let (s, l) = self.scale_level_map[i];
            proof {
                assert(self.scale_level_map@.skip(i as int)[0] == self.scale_level_map@[i as int]);
                assert(self.scale_level_map@.skip(i as int).skip(1) =~= self.scale_level_map@.skip(
                    i + 1,
                ));
            }
            if coord_key(s) <= coord_key(scale) {
                return Some(l);
            }
            i += 1;
        }
        proof {
            assert(self.scale_level_map@.skip(self.scale_level_map@.len() as int).len() == 0);
        }
        None
    }

    /// How many levels the pyramid holds.
    pub fn query_lod_level_count(&self) -> (r: usize)
        ensures
            r == self.area_lines@.len(),
    {
        self.area_lines.len()
    }

    /// The view box of a request: the union of the referenced areas'
    /// boxes, extended by the epicenter when present. Without an
    /// epicenter it is the union of area boxes alone.
    pub fn calculate_bounding_box(&self, area_codes: &Vec<u32>, epicenter: Option<Point>) -> (r:
        BoundingBox)
        ensures
            r == spec_view_box(
                self.areas@.map_values(|v: (usize, BoundingBox)| v.1),
                area_codes@,
                epicenter,
            ),
    {
        let ghost boxes = self.areas@.map_values(|v: (usize, BoundingBox)| v.1);
        let mut acc = BoundingBox {
            min: Point { lat: LAT_90_BITS, lon: LON_180_BITS },
            max: Point { lat: LAT_NEG_90_BITS, lon: LON_NEG_180_BITS },
        };
        let mut k: usize = 0;
        while k < area_codes.len()
            invariant
                k <= area_codes@.len(),
                boxes == self.areas@.map_values(|v: (usize, BoundingBox)| v.1),
                acc == spec_view_box(boxes, area_codes@.take(k as int), None),
            decreases area_codes@.len() - k,
        {
            match self.query_bounding_box_by_area(area_codes[k]) {
                Some(b) => {
                    acc = acc.extends_with(&b);
                },
                None => {},
            }
            proof {
                assert(area_codes@.take(k + 1).drop_last() =~= area_codes@.take(k as int));
                assert(area_codes@.take(k + 1).last() == area_codes@[k as int]);
            }
            k += 1;
        }
        proof {
            assert(area_codes@.take(area_codes@.len() as int) =~= area_codes@);
        }
        match epicenter {
            Some(p) => {
                let r = acc.extends_by_vertex(&p);
                proof {
                    if area_codes@.len() > 0 {
                        assert(area_codes@.drop_last() =~= area_codes@.take(
                            area_codes@.len() - 1,
                        ));
                    }
                }
                r
            },
            None => acc,
        }
    }
}

/// Whether the schedule holds an unreachable entry: one whose threshold
/// lies at or below an earlier entry's, so the first-match lookup never
/// reaches it. Such a schedule is kept as it is; callers may log it.
pub fn schedule_has_shadowed_entries(m: &Vec<(u32, usize)>) -> (r: bool)
    ensures
        r <==> exists|i: int, j: int|
            0 <= i < j < m@.len() && spec_coord_key((#[trigger] m@[i]).0) <= spec_coord_key(
                (#[trigger] m@[j]).0,
            ),
{
    let n = m.len();
    let mut j: usize = 1;
    while j < n
        invariant
            n == m@.len(),
            1 <= j || n == 0,
            j <= n || (j == 1 && n == 0),
            forall|i2: int, j2: int|
                0 <= i2 < j2 < j && j2 < n ==> spec_coord_key((#[trigger] m@[i2]).0)
                    > spec_coord_key((#[trigger] m@[j2]).0),
        decreases n - j,
    {
        let mut i: usize = 0;
        while i < j
            invariant
                n == m@.len(),
                j < n,
                i <= j,
                forall|i2: int|
                    0 <= i2 < i ==> spec_coord_key((#[trigger] m@[i2]).0) > spec_coord_key(
                        m@[j as int].0,
                    ),
            decreases j - i,
        {
            if coord_key(m[i].0) <= coord_key(m[j].0) {
                return true;
            }
            i += 1;
        }
        j += 1;
    }
    false
}

} // verus!
