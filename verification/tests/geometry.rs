use eew_renderer::assets::{schedule_has_shadowed_entries, QueryInterface};
use eew_renderer::bbox::BoundingBox;
use eew_renderer::cut::{cut_ring, dedup_shared};
use eew_renderer::ingest::{area_bounding_boxes, area_rings_from_record, intern_triangles,
    prepare_borders};
use eew_renderer::interner::VertexBuffer;
use eew_renderer::lod::{gen_lod, scale_level_map_of};
use eew_renderer::point::Point;
use eew_renderer::topology::{PointReferences, Ring};
use eew_renderer::tsunami::{pack_tsunami_lines, tsunami_lines_from_record, CodedVertexBuffer};
use eew_renderer::line::Line;
use std::collections::HashMap;

fn gp(lat: f32, lon: f32) -> Point {
    Point::new(lat.to_bits(), lon.to_bits())
}

fn closed_ring(points: &[(f32, f32)]) -> Ring {
    let mut v: Vec<Point> = points.iter().map(|&(la, lo)| gp(la, lo)).collect();
    v.push(v[0]);
    Ring { points: v }
}

#[test]
fn interner_returns_stable_indices() {
    let mut vb = VertexBuffer::new();
    let p = gp(35.0, 139.0);
    let q = gp(36.0, 140.0);
    let i1 = vb.insert(p);
    let i2 = vb.insert(q);
    let i3 = vb.insert(p);
    assert_eq!(i1, i3);
    assert!(i1 != i2);
    assert!(i1 != 0 && i2 != 0);
    let arr = vb.into_buffer();
    assert_eq!(arr[i1], p);
    assert_eq!(arr[i2], q);
}

#[test]
fn single_square_retains_no_lines_and_two_triangles() {
    // One lone square: its boundary is shared with nothing, so the
    // border extraction keeps no segment of it.
    let square = closed_ring(&[(0.0, 0.0), (0.0, 1.0), (1.0, 1.0), (1.0, 0.0)]);
    let record = area_rings_from_record(
        Some(Some(b"100".to_vec())),
        Some(vec![closed_ring(&[(0.0, 0.0), (0.0, 1.0), (1.0, 1.0), (1.0, 0.0)])]),
    )
    .unwrap()
    .unwrap();
    assert_eq!(record.area_code, 100);

    let mut table: HashMap<u32, u32> = HashMap::new();
    table.insert(100, 10);
    let entries = vec![record];
    let (area_lines, pref_lines) = prepare_borders(&entries, &table);
    assert_eq!(area_lines.len(), 0);
    assert_eq!(pref_lines.len(), 0);

    // The square triangulates into two triangles over four distinct
    // interned vertices.
    let coords: Vec<f64> = square.points[..4]
        .iter()
        .flat_map(|p| {
            vec![
                f32::from_bits(p.lon) as f64,
                f32::from_bits(p.lat) as f64,
            ]
        })
        .collect();
    let tri = earcutr::earcut(&coords, &[], 2).unwrap();
    assert_eq!(tri.len(), 6);
    let mut vb = VertexBuffer::new();
    let indices = intern_triangles(&mut vb, &square, &tri).unwrap();
    assert_eq!(indices.len(), 6);
    let mut distinct = indices.clone();
    distinct.sort();
    distinct.dedup();
    assert_eq!(distinct.len(), 4);
}

#[test]
fn shared_edge_is_a_prefecture_border() {
    // Two squares sharing one edge, in areas of distinct prefectures:
    // exactly one prefecture border comes out, and no area border.
    let a = area_rings_from_record(
        Some(Some(b"100".to_vec())),
        Some(vec![closed_ring(&[(0.0, 0.0), (0.0, 1.0), (1.0, 1.0), (1.0, 0.0)])]),
    )
    .unwrap()
    .unwrap();
    let b = area_rings_from_record(
        Some(Some(b"200".to_vec())),
        Some(vec![closed_ring(&[(1.0, 0.0), (1.0, 1.0), (2.0, 1.0), (2.0, 0.0)])]),
    )
    .unwrap()
    .unwrap();
    let mut table: HashMap<u32, u32> = HashMap::new();
    table.insert(100, 10);
    table.insert(200, 20);
    let entries = vec![a, b];
    let (area_lines, pref_lines) = prepare_borders(&entries, &table);
    assert_eq!(area_lines.len(), 0);
    assert_eq!(pref_lines.len(), 1);
    let border = &pref_lines[0];
    assert_eq!(border.vertices.len(), 2);
    assert!(border.vertices.contains(&gp(1.0, 0.0)));
    assert!(border.vertices.contains(&gp(1.0, 1.0)));
}

#[test]
fn shared_edge_same_prefecture_is_an_area_border() {
    let a = area_rings_from_record(
        Some(Some(b"100".to_vec())),
        Some(vec![closed_ring(&[(0.0, 0.0), (0.0, 1.0), (1.0, 1.0), (1.0, 0.0)])]),
    )
    .unwrap()
    .unwrap();
    let b = area_rings_from_record(
        Some(Some(b"101".to_vec())),
        Some(vec![closed_ring(&[(1.0, 0.0), (1.0, 1.0), (2.0, 1.0), (2.0, 0.0)])]),
    )
    .unwrap()
    .unwrap();
    let mut table: HashMap<u32, u32> = HashMap::new();
    table.insert(100, 10);
    table.insert(101, 10);
    let entries = vec![a, b];
    let (area_lines, pref_lines) = prepare_borders(&entries, &table);
    assert_eq!(area_lines.len(), 1);
    assert_eq!(pref_lines.len(), 0);
}

#[test]
fn interior_point_of_retained_border_is_no_junction() {
    // A shared border of three points: its midpoint has exactly the two
    // neighbours on the border, so it is not a junction and the border
    // is kept whole.
    let a = area_rings_from_record(
        Some(Some(b"100".to_vec())),
        Some(vec![closed_ring(&[
            (0.0, 0.0),
            (0.0, 2.0),
            (1.0, 2.0),
            (1.0, 1.0),
            (1.0, 0.0),
        ])]),
    )
    .unwrap()
    .unwrap();
    let b = area_rings_from_record(
        Some(Some(b"200".to_vec())),
        Some(vec![closed_ring(&[
            (1.0, 0.0),
            (1.0, 1.0),
            (1.0, 2.0),
            (2.0, 2.0),
            (2.0, 0.0),
        ])]),
    )
    .unwrap()
    .unwrap();
    let mut table: HashMap<u32, u32> = HashMap::new();
    table.insert(100, 10);
    table.insert(200, 20);
    let entries = vec![a, b];

    let refs = PointReferences::tally_of(&entries);
    let cuts = refs.cut_points();
    let midpoint = gp(1.0, 1.0);
    assert!(!cuts.contains(&midpoint));

    let (area_lines, pref_lines) = prepare_borders(&entries, &table);
    assert_eq!(area_lines.len(), 0);
    assert_eq!(pref_lines.len(), 1);
    let border = &pref_lines[0];
    assert_eq!(border.vertices.len(), 3);
    assert_eq!(border.vertices[1], midpoint);
}

#[test]
fn cut_segments_reassemble_the_ring() {
    // A ring with two junctions falls into segments that chain end to
    // end and jointly walk the whole ring.
    let ring: Vec<Point> = vec![
        gp(1.0, 0.0),
        gp(1.0, 1.0),
        gp(1.0, 2.0),
        gp(2.0, 2.0),
        gp(2.0, 0.0),
        gp(1.0, 0.0),
    ];
    let cuts = vec![gp(1.0, 0.0), gp(1.0, 2.0)];
    let segments = cut_ring(&ring, &cuts);
    assert_eq!(segments.len(), 2);
    for s in &segments {
        assert!(s.vertices.len() >= 2);
    }
    // Consecutive segments share their junction point.
    assert_eq!(
        segments[0].vertices.last().unwrap(),
        segments[1].vertices.first().unwrap()
    );
    // Together the segments carry every ring point.
    let mut walked: Vec<Point> = segments[0].vertices.clone();
    walked.extend_from_slice(&segments[1].vertices[1..]);
    assert_eq!(walked.len(), ring.len());
    for p in &ring {
        assert!(walked.contains(p));
    }
}

#[test]
fn junction_free_ring_stays_whole() {
    // No point of the ring is a junction: the cut returns exactly one
    // segment, the ring itself, unchanged.
    let ring: Vec<Point> = vec![
        gp(0.0, 0.0),
        gp(0.0, 1.0),
        gp(1.0, 1.0),
        gp(1.0, 0.0),
        gp(0.0, 0.0),
    ];
    let segments = cut_ring(&ring, &vec![]);
    assert_eq!(segments.len(), 1);
    assert_eq!(segments[0].vertices, ring);
}

#[test]
fn seam_of_an_uncut_ring_is_spliced_away() {
    // One interior junction, a seam that is no junction: the two raw
    // segments are spliced across the seam into one, dropping the
    // duplicated seam point.
    let ring: Vec<Point> = vec![
        gp(0.0, 0.0),
        gp(0.0, 1.0),
        gp(1.0, 1.0),
        gp(1.0, 0.0),
        gp(0.0, 0.0),
    ];
    let cuts = vec![gp(1.0, 1.0)];
    let segments = cut_ring(&ring, &cuts);
    assert_eq!(segments.len(), 1);
    let seg = &segments[0].vertices;
    assert_eq!(seg.len(), 5);
    assert_eq!(seg[0], gp(1.0, 1.0));
    assert_eq!(seg[seg.len() - 1], gp(1.0, 1.0));
}

#[test]
fn dedup_keeps_only_borders_cut_twice() {
    let shared_a = eew_renderer::line::Line::new(&vec![gp(1.0, 0.0), gp(1.0, 1.0)]);
    let shared_b = eew_renderer::line::Line::new(&vec![gp(1.0, 1.0), gp(1.0, 0.0)]);
    let lone = eew_renderer::line::Line::new(&vec![gp(5.0, 5.0), gp(6.0, 6.0)]);
    let kept = dedup_shared(&vec![shared_a, lone, shared_b]);
    assert_eq!(kept.len(), 1);
    assert_eq!(kept[0].vertices.len(), 2);
    assert!(kept[0].vertices.contains(&gp(1.0, 0.0)));
}

#[test]
fn record_box_encloses_rings_and_is_queryable() {
    let record = area_rings_from_record(
        Some(Some(b"350".to_vec())),
        Some(vec![closed_ring(&[(30.0, 130.0), (30.5, 131.0), (31.0, 130.5)])]),
    )
    .unwrap()
    .unwrap();
    let bb = record.bounding_box;
    assert_eq!(f32::from_bits(bb.min.lat), 30.0);
    assert_eq!(f32::from_bits(bb.max.lat), 31.0);
    assert_eq!(f32::from_bits(bb.min.lon), 130.0);
    assert_eq!(f32::from_bits(bb.max.lon), 131.0);

    let boxes = area_bounding_boxes(&vec![record]);
    let got = boxes.get(&350).unwrap();
    assert_eq!(f32::from_bits(got.max.lon), 131.0);
}

#[test]
fn record_classification_errors() {
    // A non-polygon shape is skipped.
    assert!(matches!(area_rings_from_record(Some(Some(b"1".to_vec())), None), Ok(None)));
    // A missing code field is fatal.
    assert!(area_rings_from_record(None, Some(vec![])).is_err());
    // An unparsable code field is fatal.
    assert!(
        area_rings_from_record(Some(Some(b"12a".to_vec())), Some(vec![])).is_err()
    );
    // So is a value past the 16-bit administrative code range.
    assert!(
        area_rings_from_record(Some(Some(b"70000".to_vec())), Some(vec![])).is_err()
    );
    // An empty character field is the sentinel.
    let r = area_rings_from_record(Some(None), Some(vec![])).unwrap().unwrap();
    assert_eq!(r.area_code, 0);
}

#[test]
fn lod_strips_reference_only_valid_vertices() {
    let border = eew_renderer::line::Line::new(&vec![
        gp(0.0, 0.0),
        gp(0.5, 0.5),
        gp(1.0, 1.0),
    ]);
    let coarse = eew_renderer::line::Line::new(&vec![gp(0.0, 0.0), gp(1.0, 1.0)]);
    let mut vb = VertexBuffer::new();
    let strips = gen_lod(&mut vb, vec![vec![border], vec![coarse]]);
    let vertices = vb.into_buffer();
    assert_eq!(strips.len(), 2);
    assert_eq!(strips[0].len(), 3);
    assert_eq!(strips[1].len(), 2);
    for strip in &strips {
        for &ix in strip {
            assert!((ix as usize) < vertices.len());
            assert!(ix != 0);
        }
    }
    // The two levels share the interned endpoints.
    assert_eq!(strips[0][0], strips[1][0]);
    assert_eq!(strips[0][2], strips[1][1]);
}

#[test]
fn strip_packing_separates_lines_with_zero() {
    let l1 = eew_renderer::line::Line::new(&vec![gp(0.0, 0.0), gp(1.0, 1.0)]);
    let l2 = eew_renderer::line::Line::new(&vec![gp(2.0, 2.0), gp(3.0, 3.0)]);
    let mut vb = VertexBuffer::new();
    let strips = gen_lod(&mut vb, vec![vec![l1, l2]]);
    assert_eq!(strips[0].len(), 5);
    assert_eq!(strips[0][2], 0);
    assert!(strips[0][0] != 0 && strips[0][1] != 0 && strips[0][3] != 0 && strips[0][4] != 0);
}

#[test]
fn scale_lookup_picks_first_threshold_at_or_below() {
    let thresholds: Vec<u32> = vec![
        100.0f32.to_bits(),
        50.0f32.to_bits(),
        10.0f32.to_bits(),
        50.0f32.to_bits(), // shadowed by the second entry
        5.0f32.to_bits(),
    ];
    let map = scale_level_map_of(&thresholds);
    let qi = QueryInterface {
        intensity_station_positions: vec![],
        areas: HashMap::new(),
        station_codes: HashMap::new(),
        vertices: vec![],
        map_triangles: vec![],
        area_lines: vec![vec![], vec![], vec![], vec![], vec![]],
        pref_lines: vec![vec![], vec![], vec![], vec![], vec![]],
        scale_level_map: map,
    };
    assert_eq!(qi.query_lod_level_count(), 5);
    assert_eq!(qi.query_lod_level_by_scale(200.0f32.to_bits()), Some(0));
    assert_eq!(qi.query_lod_level_by_scale(60.0f32.to_bits()), Some(1));
    // The duplicated threshold is unreachable: its earlier twin wins.
    assert_eq!(qi.query_lod_level_by_scale(50.0f32.to_bits()), Some(1));
    assert_eq!(qi.query_lod_level_by_scale(7.0f32.to_bits()), Some(4));
    // A scale below every threshold selects no level.
    assert_eq!(qi.query_lod_level_by_scale(1.0f32.to_bits()), None);
}

#[test]
fn shadowed_schedule_entries_are_reported() {
    let strictly_falling = scale_level_map_of(&vec![
        100.0f32.to_bits(),
        50.0f32.to_bits(),
        10.0f32.to_bits(),
    ]);
    assert!(!schedule_has_shadowed_entries(&strictly_falling));
    let with_duplicate = scale_level_map_of(&vec![
        100.0f32.to_bits(),
        50.0f32.to_bits(),
        50.0f32.to_bits(),
    ]);
    assert!(schedule_has_shadowed_entries(&with_duplicate));
}

#[test]
fn view_box_without_epicenter_is_union_of_area_boxes() {
    let mut areas: HashMap<u32, (usize, BoundingBox)> = HashMap::new();
    let box_a = BoundingBox {
        min: gp(30.0, 130.0),
        max: gp(32.0, 132.0),
    };
    areas.insert(100, (0, box_a));
    let box_b = BoundingBox {
        min: gp(33.0, 133.0),
        max: gp(35.0, 136.0),
    };
    areas.insert(200, (0, box_b));
    let qi = QueryInterface {
        intensity_station_positions: vec![(139.0f32.to_bits(), 35.0f32.to_bits())],
        areas,
        station_codes: HashMap::new(),
        vertices: vec![],
        map_triangles: vec![],
        area_lines: vec![],
        pref_lines: vec![],
        scale_level_map: vec![],
    };
    let bb = qi.calculate_bounding_box(&vec![100, 200, 999], None);
    assert_eq!(f32::from_bits(bb.min.lat), 30.0);
    assert_eq!(f32::from_bits(bb.max.lat), 35.0);
    assert_eq!(f32::from_bits(bb.max.lon), 136.0);

    // The epicenter, when present, joins the union.
    let bb2 = qi.calculate_bounding_box(&vec![100, 200], Some(gp(37.5, 137.2)));
    assert_eq!(f32::from_bits(bb2.max.lat), 37.5);
    assert_eq!(f32::from_bits(bb2.max.lon), 137.2);
}

#[test]
fn tsunami_records_intern_and_pack() {
    // A polyline with the open code 0 is skipped; an empty code field
    // is fatal; a non-polyline shape is skipped.
    assert!(matches!(
        tsunami_lines_from_record(Some(Some(b"0".to_vec())), Some(vec![])),
        Ok(None)
    ));
    assert!(tsunami_lines_from_record(Some(None), Some(vec![])).is_err());
    assert!(matches!(
        tsunami_lines_from_record(Some(Some(b"201".to_vec())), None),
        Ok(None)
    ));

    let part_a = Line::new(&vec![gp(34.0, 135.0), gp(34.5, 135.5)]);
    let part_b = Line::new(&vec![gp(34.5, 135.5), gp(35.0, 136.0), gp(35.5, 136.5)]);
    let entry = tsunami_lines_from_record(
        Some(Some(b"201".to_vec())),
        Some(vec![part_a, part_b]),
    )
    .unwrap()
    .unwrap();
    assert_eq!(entry.tsunami_area_code, 201);

    let mut vb = CodedVertexBuffer::new();
    let strip = pack_tsunami_lines(&mut vb, &vec![entry]);
    let buffer = vb.into_buffer();
    // Two points, a separator, three points, a separator.
    assert_eq!(strip.len(), 7);
    assert_eq!(strip[2], 0);
    assert_eq!(strip[6], 0);
    for (i, &ix) in strip.iter().enumerate() {
        if i != 2 && i != 6 {
            assert!(ix != 0);
            assert!((ix as usize) < buffer.len());
            assert_eq!(buffer[ix as usize].code, 201);
        }
    }
    // The point both parts share is interned once.
    assert_eq!(strip[1], strip[3]);
}
