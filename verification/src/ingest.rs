//! Shapefile record ingestion and the offline border pipeline.
//!
//! The file reading itself happens outside; this module receives each
//! record's code field and ring geometry as plain values, classifies the
//! record, and drives the verified preprocessing: tally, cut, keep the
//! shared borders, classify them by prefecture incidence.

use vstd::prelude::*;
use std::collections::HashMap;
use crate::point::Point;
use crate::bbox::{BoundingBox, bbox_contains};
use crate::topology::{Ring, AreaRings, PointReferences, entries_marks, entries_ring_views,
    lemma_flat_position_mark, mark_area_incident, mark_occurs, ring_neighbours_distinct,
    rings_views, spec_is_junction, UNNUMBERED_AREA, spec_shared_prefs};
use crate::line::Line;
use crate::cut::{cut_rings, dedup_shared, classify_lines, flatten_blocks,
    lemma_flatten_blocks_member, spec_cut_of, spec_dedup_of};
use crate::interner::VertexBuffer;

verus! {

broadcast use vstd::std_specs::hash::group_hash_axioms;

/// A fatal defect of the shapefile: assets are built offline, so a
/// wrong code field aborts the build instead of producing wrong maps.
#[derive(Clone, Copy, PartialEq, Eq, Structural, Debug)]
pub enum ShapefileError {
    /// The record has no code field of the expected kind.
    MissingCode,
    /// The code field does not hold a decimal area code.
    BadCode,
}

/// The numeric value of a decimal digit string.
pub open spec fn spec_digits_value(s: Seq<u8>) -> nat
    decreases s.len(),
{
    if s.len() == 0 {
        0
    } else {
        spec_digits_value(s.drop_last()) * 10 + (s.last() - 48) as nat
    }
}

/// Whether `s` is a non-empty string of decimal digits whose value fits
/// a 16-bit administrative area code.
pub open spec fn spec_is_code(s: Seq<u8>) -> bool {
    &&& s.len() >= 1
    &&& forall|i: int| 0 <= i < s.len() ==> 48 <= #[trigger] s[i] <= 57
    &&& spec_digits_value(s) <= u16::MAX
}

/// Parses a decimal area code.
pub fn parse_code(s: &Vec<u8>) -> (r: Option<u32>)
    ensures
        r is Some <==> spec_is_code(s@),
        r is Some ==> r->0 == spec_digits_value(s@),
{
    if s.len() == 0 {
        return None;
    }
    let mut value: u64 = 0;
    let mut i: usize = 0;
    while i < s.len()
        invariant
            i <= s@.len(),
            forall|j: int| 0 <= j < i ==> 48 <= #[trigger] s@[j] <= 57,
            value == spec_digits_value(s@.take(i as int)),
            value <= 0xFFFF,
        decreases s@.len() - i,
    {
        let b = s[i];
        if b < 48 || b > 57 {
            proof {
                assert(!spec_is_code(s@));
            }
            return None;
        }
        let next = value * 10 + (b - 48) as u64;
        proof {
            assert(s@.take(i + 1).drop_last() =~= s@.take(i as int));
            assert(s@.take(i + 1).last() == s@[i as int]);
        }
        if next > 0xFFFF {
            proof {
                if forall|j: int| 0 <= j < s@.len() ==> 48 <= #[trigger] s@[j] <= 57 {
                    lemma_digits_value_monotone(s@, i + 1);
                }
            }
            return None;
        }
        value = next;
        i += 1;
    }
    proof {
        assert(s@.take(s@.len() as int) =~= s@);
    }
    Some(value as u32)
}

/// Once a digit prefix exceeds the code range, the whole string does.
proof fn lemma_digits_value_monotone(s: Seq<u8>, k: int)
    requires
        0 <= k <= s.len(),
        forall|i: int| 0 <= i < s.len() ==> 48 <= #[trigger] s[i] <= 57,
    ensures
        spec_digits_value(s) >= spec_digits_value(s.take(k)),
    decreases s.len() - k,
{
    if k == s.len() {
        assert(s.take(k) =~= s);
    } else {
        lemma_digits_value_monotone(s, k + 1);
        assert(s.take(k + 1).drop_last() =~= s.take(k));
        assert(spec_digits_value(s.take(k + 1)) >= spec_digits_value(s.take(k)));
    }
}

/// The code field of a record as handed in: absent or of the wrong
/// kind (`None`), a character field left empty (`Some(None)`), or its
/// bytes.
pub type CodeField = Option<Option<Vec<u8>>>;

/// Classifies one shapefile record. A non-polygon shape (`rings` is
/// `None`) is skipped; a missing or unparsable code field is fatal; an
/// empty code field is the sentinel for foreign or uncoded regions.
/// The record's bounding box is computed from its rings, so it encloses
/// every vertex of every ring.
pub fn area_rings_from_record(code_field: CodeField, rings: Option<Vec<Ring>>) -> (r: Result<
    Option<AreaRings>,
    ShapefileError,
>)
    ensures
        match r {
            Ok(Some(ar)) => {
                &&& rings matches Some(rs) && ar.rings == rs
                &&& match code_field {
                    None => false,
                    Some(None) => ar.area_code == UNNUMBERED_AREA,
                    Some(Some(bytes)) => spec_is_code(bytes@) && ar.area_code
                        == spec_digits_value(bytes@),
                }
                &&& forall|k: int, u: int|
                    0 <= k < ar.rings@.len() && 0 <= u < ar.rings@[k]@.len() ==> bbox_contains(
                        ar.bounding_box,
                        #[trigger] ar.rings@[k]@[u],
                    )
            },
            Ok(None) => rings is None,
            Err(ShapefileError::MissingCode) => rings is Some && code_field is None,
            Err(ShapefileError::BadCode) => rings is Some && (code_field matches Some(Some(bytes))
                && !spec_is_code(bytes@)),
        },
{
    let rs = match rings {
        None => {
            return Ok(None);
        },
        Some(rs) => rs,
    };
    let area_code: u32 = match &code_field {
        None => {
            return Err(ShapefileError::MissingCode);
        },
        Some(None) => UNNUMBERED_AREA,
        Some(Some(bytes)) => match parse_code(bytes) {
            Some(c) => c,
            None => {
                return Err(ShapefileError::BadCode);
            },
        },
    };
    let mut all_points: Vec<Point> = Vec::new();
    let mut k: usize = 0;
    while k < rs.len()
        invariant
            k <= rs@.len(),
            forall|k2: int, u: int|
                0 <= k2 < k && 0 <= u < rs@[k2]@.len() ==> all_points@.contains(
                    #[trigger] rs@[k2]@[u],
                ),
        decreases rs@.len() - k,
    {
        let ring = &rs[k];
        let mut u: usize = 0;
        while u < ring.points.len()
            invariant
                k < rs@.len(),
                ring == &rs@[k as int],
                u <= ring@.len(),
                forall|k2: int, u2: int|
                    0 <= k2 < k && 0 <= u2 < rs@[k2]@.len() ==> all_points@.contains(
                        #[trigger] rs@[k2]@[u2],
                    ),
                forall|u2: int| 0 <= u2 < u ==> all_points@.contains(#[trigger] ring@[u2]),
            decreases ring@.len() - u,
        {
            let ghost before = all_points@;
            all_points.push(ring.points[u]);
            proof {
                assert forall|q: Point| before.contains(q) implies all_points@.contains(q) by {
                    let w = choose|w: int| 0 <= w < before.len() && before[w] == q;
                    assert(all_points@[w] == q);
                }
                assert(all_points@[all_points@.len() - 1] == ring@[u as int]);
            }
            u += 1;
        }
        k += 1;
    }
    let bounding_box = BoundingBox::from_vertices(&all_points);
    proof {
        assert forall|k2: int, u: int|
            0 <= k2 < rs@.len() && 0 <= u < rs@[k2]@.len() implies bbox_contains(
            bounding_box,
            #[trigger] rs@[k2]@[u],
        ) by {
            assert(all_points@.contains(rs@[k2]@[u]));
            let w = choose|w: int| 0 <= w < all_points@.len() && all_points@[w] == rs@[k2]@[u];
            assert(bbox_contains(bounding_box, all_points@[w]));
        }
    }
    Ok(Some(AreaRings { area_code, bounding_box, rings: rs }))
}

/// The per-area bounding boxes of the asset table: every coded record's
/// box under its code, the sentinel excluded. Codes must be unique
/// across records.
pub fn area_bounding_boxes(entries: &Vec<AreaRings>) -> (r: HashMap<u32, BoundingBox>)
    requires
        forall|i: int, j: int|
            0 <= i < j < entries@.len() ==> (#[trigger] entries@[i]).area_code != (
            #[trigger] entries@[j]).area_code || entries@[i].area_code == UNNUMBERED_AREA,
    ensures
        forall|k: int|
            0 <= k < entries@.len() && (#[trigger] entries@[k]).area_code != UNNUMBERED_AREA
                ==> r@.contains_key(entries@[k].area_code) && r@[entries@[k].area_code]
                == entries@[k].bounding_box,
        forall|c: u32|
            #[trigger] r@.contains_key(c) ==> c != UNNUMBERED_AREA && exists|k: int|
                0 <= k < entries@.len() && (#[trigger] entries@[k]).area_code == c,
{
    let mut out: HashMap<u32, BoundingBox> = HashMap::new();
    let mut k: usize = 0;
    while k < entries.len()
        invariant
            k <= entries@.len(),
            forall|i: int, j: int|
                0 <= i < j < entries@.len() ==> (#[trigger] entries@[i]).area_code != (
                #[trigger] entries@[j]).area_code || entries@[i].area_code == UNNUMBERED_AREA,
            forall|k2: int|
                0 <= k2 < k && (#[trigger] entries@[k2]).area_code != UNNUMBERED_AREA
                    ==> out@.contains_key(entries@[k2].area_code) && out@[entries@[k2].area_code]
                    == entries@[k2].bounding_box,
            forall|c: u32|
                #[trigger] out@.contains_key(c) ==> c != UNNUMBERED_AREA && exists|k2: int|
                    0 <= k2 < k && (#[trigger] entries@[k2]).area_code == c,
        decreases entries@.len() - k,
    {
        let e = &entries[k];
        if e.area_code != UNNUMBERED_AREA {
            out.insert(e.area_code, e.bounding_box);
            proof {
                assert forall|k2: int|
                    0 <= k2 < k + 1 && (#[trigger] entries@[k2]).area_code != UNNUMBERED_AREA
                        implies out@.contains_key(entries@[k2].area_code) && out@[entries@[
                    k2
                ].area_code] == entries@[k2].bounding_box by {
                    if k2 < k {
                        assert(entries@[k2].area_code != entries@[k as int].area_code);
                    }
                }
            }
        }
        k += 1;
    }
    out
}

/// Interns one ring's triangulation: `idxs` are triangle corner
/// positions into the ring, as the triangulator emitted them; a
/// position past the ring is rejected.
pub fn intern_triangles(vb: &mut VertexBuffer, ring: &Ring, idxs: &Vec<usize>) -> (r: Option<
    Vec<u32>,
>)
    requires
        old(vb).wf(),
        old(vb).points().len() + idxs@.len() <= u32::MAX,
    ensures
        final(vb).wf(),
        old(vb).points().len() <= final(vb).points().len(),
        forall|i: int|
            0 <= i < old(vb).points().len() ==> #[trigger] final(vb).points()[i]
                == old(vb).points()[i],
        r is Some <==> (forall|t: int| 0 <= t < idxs@.len() ==> #[trigger] idxs@[t] < ring@.len()),
        r matches Some(v) ==> v@.len() == idxs@.len() && (forall|t: int|
            0 <= t < idxs@.len() ==> #[trigger] v@[t] < final(vb).points().len()
                && final(vb).points()[v@[t] as int] == ring@[idxs@[t] as int]),
{
    let ghost base = vb.points().len() as int;
    let mut out: Vec<u32> = Vec::new();
    let mut t: usize = 0;
    while t < idxs.len()
        invariant
            vb.wf(),
            t <= idxs@.len(),
            base == old(vb).points().len(),
            base + idxs@.len() <= u32::MAX,
            base <= vb.points().len() <= base + t,
            forall|i: int| 0 <= i < base ==> #[trigger] vb.points()[i] == old(vb).points()[i],
            out@.len() == t,
            forall|t2: int| 0 <= t2 < t ==> #[trigger] idxs@[t2] < ring@.len(),
            forall|t2: int|
                0 <= t2 < t ==> #[trigger] out@[t2] < vb.points().len() && vb.points()[out@[
                    t2
                ] as int] == ring@[idxs@[t2] as int],
        decreases idxs@.len() - t,
    {
        let ix = idxs[t];
        if ix >= ring.points.len() {
            proof {
                assert(idxs@[t as int] >= ring@.len());
                assert(!(forall|t2: int|
                    0 <= t2 < idxs@.len() ==> #[trigger] idxs@[t2] < ring@.len()));
            }
            return None;
        }
        let ghost before = vb.points();
        let idx = vb.insert(ring.points[ix]);
        proof {
            assert forall|t2: int|
                0 <= t2 < t implies #[trigger] out@[t2] < vb.points().len() && vb.points()[out@[
                t2
            ] as int] == ring@[idxs@[t2] as int] by {
                assert(vb.points()[out@[t2] as int] == before[out@[t2] as int]);
            }
        }
        out.push(idx as u32);
        t += 1;
    }
    Some(out)
}

/// The offline border pipeline, stage by stage: `cp` is exactly the
/// junction set of the records' topology; `blocks` holds, ring by ring,
/// the cut of every ring of every record; `shared` keeps exactly the
/// borders cut at least twice (one representative each); and the two
/// outputs are the kept borders whose endpoints share exactly one
/// prefecture, and two or more, respectively.
pub open spec fn spec_border_pipeline(
    es: Seq<AreaRings>,
    table: Map<u32, u32>,
    area_out: Seq<Line>,
    pref_out: Seq<Line>,
    cp: Seq<Point>,
    blocks: Seq<Seq<Line>>,
    shared: Seq<Line>,
) -> bool {
    let ms = entries_marks(es);
    let rv = entries_ring_views(es);
    &&& forall|q: Point|
        #[trigger] cp.contains(q) <==> mark_occurs(ms, q) && spec_is_junction(ms, q)
    &&& blocks.len() == rv.len()
    &&& forall|k: int| 0 <= k < blocks.len() ==> spec_cut_of(rv[k], cp, #[trigger] blocks[k])
    &&& spec_dedup_of(flatten_blocks(blocks), shared)
    &&& area_out == shared.filter(
        (|l: Line| spec_shared_prefs(ms, table, l@.first(), l@.last()).len() == 1),
    )
    &&& pref_out == shared.filter(
        (|l: Line| spec_shared_prefs(ms, table, l@.first(), l@.last()).len() >= 2),
    )
}

/// Runs the verified border pipeline: tallies the ring topology, cuts
/// every ring at its junctions, keeps each border that at least two
/// rings share, and splits the kept borders into sub-prefectural and
/// prefectural ones by how many prefectures their endpoints share. The
/// whole chain is pinned by [`spec_border_pipeline`].
pub fn prepare_borders(entries: &Vec<AreaRings>, table: &HashMap<u32, u32>) -> (r: (
    Vec<Line>,
    Vec<Line>,
))
    requires
        forall|k: int, w: int|
            0 <= k < entries@.len() && 0 <= w < entries@[k].rings@.len() ==> (
            #[trigger] entries@[k].rings@[w])@.len() >= 2,
        forall|p: Point, a: u32|
            #[trigger] mark_area_incident(entries_marks(entries@), p, a) && a != UNNUMBERED_AREA
                ==> table@.contains_key(a),
    ensures
        exists|cp: Seq<Point>, blocks: Seq<Seq<Line>>, shared: Seq<Line>|
            #[trigger] spec_border_pipeline(entries@, table@, r.0@, r.1@, cp, blocks, shared),
        forall|t: int| 0 <= t < r.0@.len() ==> (#[trigger] r.0@[t])@.len() >= 2,
        forall|t: int| 0 <= t < r.1@.len() ==> (#[trigger] r.1@[t])@.len() >= 2,
        forall|t: int|
            0 <= t < r.0@.len() ==> spec_shared_prefs(
                entries_marks(entries@),
                table@,
                (#[trigger] r.0@[t])@.first(),
                r.0@[t]@.last(),
            ).len() == 1,
        forall|t: int|
            0 <= t < r.1@.len() ==> spec_shared_prefs(
                entries_marks(entries@),
                table@,
                (#[trigger] r.1@[t])@.first(),
                r.1@[t]@.last(),
            ).len() >= 2,
{
    let refs = PointReferences::tally_of(entries);
    let cuts = refs.cut_points();
    let mut all_rings: Vec<Ring> = Vec::new();
    let mut k: usize = 0;
    proof {
        assert(rings_views(all_rings@) =~= entries_ring_views(entries@.take(0)));
    }
    while k < entries.len()
        invariant
            k <= entries@.len(),
            forall|k2: int, w: int|
                0 <= k2 < entries@.len() && 0 <= w < entries@[k2].rings@.len() ==> (
                #[trigger] entries@[k2].rings@[w])@.len() >= 2,
            forall|t: int| 0 <= t < all_rings@.len() ==> (#[trigger] all_rings@[t])@.len() >= 2,
            rings_views(all_rings@) == entries_ring_views(entries@.take(k as int)),
        decreases entries@.len() - k,
    {
        let rings = &entries[k].rings;
        let mut w: usize = 0;
        while w < rings.len()
            invariant
                k < entries@.len(),
                rings == &entries@[k as int].rings,
                w <= rings@.len(),
                forall|k2: int, w2: int|
                    0 <= k2 < entries@.len() && 0 <= w2 < entries@[k2].rings@.len() ==> (
                    #[trigger] entries@[k2].rings@[w2])@.len() >= 2,
                forall|t: int|
                    0 <= t < all_rings@.len() ==> (#[trigger] all_rings@[t])@.len() >= 2,
                rings_views(all_rings@) == entries_ring_views(entries@.take(k as int))
                    + rings_views(rings@).take(w as int),
            decreases rings@.len() - w,
        {
            proof {
                assert(rings@[w as int]@.len() >= 2);
            }
            let ghost before = all_rings@;
            all_rings.push(Ring { points: crate::line::copy_points(&rings[w].points) });
            proof {
                assert(rings_views(all_rings@) =~= rings_views(before).push(rings@[w as int]@));
                assert(rings_views(rings@).take(w + 1) =~= rings_views(rings@).take(
                    w as int,
                ).push(rings@[w as int]@));
                assert(rings_views(all_rings@) =~= entries_ring_views(entries@.take(k as int))
                    + rings_views(rings@).take(w + 1));
            }
            w += 1;
        }
        proof {
            assert(rings_views(rings@).take(rings@.len() as int) =~= rings_views(rings@));
            assert(entries@.take(k + 1).drop_last() =~= entries@.take(k as int));
            assert(entries@.take(k + 1).last() == entries@[k as int]);
            assert(entries_ring_views(entries@.take(k + 1)) == entries_ring_views(
                entries@.take(k as int),
            ) + rings_views(rings@));
        }
        k += 1;
    }
    proof {
        assert(entries@.take(entries@.len() as int) =~= entries@);
    }
    let segments = cut_rings(&all_rings, &cuts);
    let shared = dedup_shared(&segments);
    let ghost shared0 = shared@;
    proof {
        assert forall|t: int| 0 <= t < shared0.len() implies (#[trigger] shared0[t])@.len()
            >= 2 by {
            let j = choose|j: int| 0 <= j < segments@.len() && shared0[t]@ == segments@[j]@;
            assert(segments@[j]@.len() >= 2);
        }
    }
    let (area_lines, pref_lines) = classify_lines(shared, &refs, table);
    proof {
        let ms = entries_marks(entries@);
        let rv = entries_ring_views(entries@);
        let pred1 = (|l: Line| spec_shared_prefs(refs.marks(), table@, l@.first(), l@.last()).len()
            == 1);
        let pred2 = (|l: Line| spec_shared_prefs(refs.marks(), table@, l@.first(), l@.last()).len()
            >= 2);
        let pred1m = (|l: Line| spec_shared_prefs(ms, table@, l@.first(), l@.last()).len() == 1);
        let pred2m = (|l: Line| spec_shared_prefs(ms, table@, l@.first(), l@.last()).len() >= 2);
        assert(area_lines@ == shared0.filter(pred1));
        assert(pref_lines@ == shared0.filter(pred2));
        lemma_filter_congruent(shared0, pred1, pred1m);
        lemma_filter_congruent(shared0, pred2, pred2m);
        // Assemble the pipeline witness.
        let blocks = choose|blocks: Seq<Seq<Line>>|
            segments@ == #[trigger] flatten_blocks(blocks) && blocks.len() == all_rings@.len()
                && (forall|k2: int|
                0 <= k2 < blocks.len() ==> spec_cut_of(
                    all_rings@[k2]@,
                    cuts@,
                    #[trigger] blocks[k2],
                ));
        assert(blocks.len() == rv.len());
        assert forall|k2: int| 0 <= k2 < blocks.len() implies spec_cut_of(
            rv[k2],
            cuts@,
            #[trigger] blocks[k2],
        ) by {
            assert(rings_views(all_rings@)[k2] == all_rings@[k2]@);
            assert(rv[k2] == all_rings@[k2]@);
        }
        assert(spec_border_pipeline(
            entries@,
            table@,
            area_lines@,
            pref_lines@,
            cuts@,
            blocks,
            shared0,
        ));
        assert forall|t: int| 0 <= t < area_lines@.len() implies (#[trigger] area_lines@[t])@.len()
            >= 2 && spec_shared_prefs(
            ms,
            table@,
            area_lines@[t]@.first(),
            area_lines@[t]@.last(),
        ).len() == 1 by {
            shared0.lemma_filter_pred(pred1, t);
            lemma_filter_subset(shared0, pred1, t);
            let w = choose|w: int| 0 <= w < shared0.len() && shared0[w] == area_lines@[t];
        }
        assert forall|t: int| 0 <= t < pref_lines@.len() implies (#[trigger] pref_lines@[t])@.len()
            >= 2 && spec_shared_prefs(
            ms,
            table@,
            pref_lines@[t]@.first(),
            pref_lines@[t]@.last(),
        ).len() >= 2 by {
            shared0.lemma_filter_pred(pred2, t);
            lemma_filter_subset(shared0, pred2, t);
            let w = choose|w: int| 0 <= w < shared0.len() && shared0[w] == pref_lines@[t];
        }
    }
    (area_lines, pref_lines)
}

/// Interior-point law of the retained borders, composed over the whole
/// pipeline: when every ring is closed (seam point repeated) and every
/// ring position has two distinct neighbours, every interior point of
/// every output border of [`prepare_borders`] has an adjacency set of
/// size exactly two — it sits on the shared border and nowhere else.
#[verifier::rlimit(100)]
pub proof fn lemma_retained_interior_adjacency(
    entries: Seq<AreaRings>,
    table: Map<u32, u32>,
    refs: &PointReferences,
    cp: Seq<Point>,
    blocks: Seq<Seq<Line>>,
    shared: Seq<Line>,
    area_out: Seq<Line>,
    pref_out: Seq<Line>,
    l: Line,
    u: int,
)
    requires
        refs.wf(),
        refs.marks() == entries_marks(entries),
        spec_border_pipeline(entries, table, area_out, pref_out, cp, blocks, shared),
        forall|k: int|
            0 <= k < entries_ring_views(entries).len() ==> (#[trigger] entries_ring_views(
                entries,
            )[k]).len() >= 2 && entries_ring_views(entries)[k].first() == entries_ring_views(
                entries,
            )[k].last(),
        forall|k: int, i: int|
            0 <= k < entries_ring_views(entries).len() && 0 <= i < entries_ring_views(
                entries,
            )[k].len() ==> #[trigger] ring_neighbours_distinct(
                entries_ring_views(entries)[k],
                i,
            ),
        area_out.contains(l) || pref_out.contains(l),
        0 < u < l@.len() - 1,
    ensures
        refs.spec_has(l@[u]),
        refs.spec_adjacency_count(l@[u]) == 2,
{
    let ms = entries_marks(entries);
    let rv = entries_ring_views(entries);
    let p = l@[u];
    // The border is one of the kept shared segments.
    let pred1 = (|l2: Line| spec_shared_prefs(ms, table, l2@.first(), l2@.last()).len() == 1);
    let pred2 = (|l2: Line| spec_shared_prefs(ms, table, l2@.first(), l2@.last()).len() >= 2);
    if area_out.contains(l) {
        let idx = choose|idx: int| 0 <= idx < area_out.len() && area_out[idx] == l;
        lemma_filter_subset(shared, pred1, idx);
    } else {
        let idx = choose|idx: int| 0 <= idx < pref_out.len() && pref_out[idx] == l;
        lemma_filter_subset(shared, pred2, idx);
    }
    let t = choose|t: int| 0 <= t < shared.len() && shared[t] == l;
    // The kept segment is one of the cut segments, in some ring's block.
    let segments = flatten_blocks(blocks);
    let j = choose|j: int| 0 <= j < segments.len() && shared[t]@ == segments[j]@;
    lemma_flatten_blocks_member(blocks, j);
    let (k, t2) = choose|k: int, t2: int|
        0 <= k < blocks.len() && 0 <= t2 < blocks[k].len() && #[trigger] blocks[k][t2]
            == segments[j];
    assert(spec_cut_of(rv[k], cp, blocks[k]));
    assert(blocks[k][t2]@ == l@);
    // Interior points of a closed ring's segments are not junctions...
    assert(rv[k].first() == rv[k].last());
    assert(!cp.contains(blocks[k][t2]@[u]));
    assert(!cp.contains(p));
    // ... and they sit on the ring, between two distinct neighbours.
    assert(rv[k].contains(blocks[k][t2]@[u]));
    let pos = choose|pos: int| 0 <= pos < rv[k].len() && rv[k][pos] == p;
    lemma_flat_position_mark(entries, k, pos);
    let j2 = choose|j2: int|
        0 <= j2 < ms.len() && (#[trigger] ms[j2]).cur == rv[k][pos] && ms[j2].prev
            == rv[k][if pos == 0 {
            rv[k].len() - 1
        } else {
            pos - 1
        }] && ms[j2].next == rv[k][if pos == rv[k].len() - 1 {
            0
        } else {
            pos + 1
        }];
    assert(ring_neighbours_distinct(rv[k], pos));
    assert(ms[j2].prev != ms[j2].next);
    // A non-junction ring point with distinct neighbours has exactly
    // two of them.
    assert forall|q: Point|
        #[trigger] cp.contains(q) <==> refs.spec_has(q) && refs.spec_adjacency_count(q)
            >= 3 by {
        refs.lemma_junction_count(q);
    }
    refs.lemma_interior_point_adjacency(cp, p, j2);
}

/// Filtering by pointwise-equal predicates keeps the same elements.
proof fn lemma_filter_congruent<A>(s: Seq<A>, f: spec_fn(A) -> bool, g: spec_fn(A) -> bool)
    requires
        forall|x: A| #[trigger] f(x) == g(x),
    ensures
        s.filter(f) == s.filter(g),
    decreases s.len(),
{
    reveal(Seq::filter);
    if s.len() > 0 {
        lemma_filter_congruent(s.drop_last(), f, g);
        assert(f(s.last()) == g(s.last()));
    }
}

/// Everything a filter keeps is a member of the source.
proof fn lemma_filter_subset<A>(s: Seq<A>, pred: spec_fn(A) -> bool, i: int)
    requires
        0 <= i < s.filter(pred).len(),
    ensures
        s.contains(s.filter(pred)[i]),
    decreases s.len(),
{
    reveal(Seq::filter);
    if s.len() > 0 {
        let out = s.filter(pred);
        let sub = s.drop_last().filter(pred);
        if pred(s.last()) && i == out.len() - 1 {
            assert(out[i] == s.last());
            assert(s[s.len() - 1] == s.last());
        } else {
            lemma_filter_subset(s.drop_last(), pred, i);
            assert(out[i] == sub[i]);
            let w = choose|w: int| 0 <= w < s.drop_last().len() && s.drop_last()[w] == sub[i];
            assert(s[w] == sub[i]);
        }
    }
}

} // verus!
