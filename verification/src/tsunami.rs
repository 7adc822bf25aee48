//! The tsunami forecast-zone pipeline.
//!
//! Forecast zones arrive as polyline records, each carrying a tsunami
//! area code. Their vertices are interned as (point, code) pairs into
//! one dense array, and the lines are packed into a flat index sequence
//! with the reserved index 0 closing every line.

use vstd::prelude::*;
use std::collections::HashMap;
use crate::point::{Point, lemma_point_key_injective};
use crate::line::Line;
use crate::ingest::{parse_code, spec_is_code, spec_digits_value, CodeField, ShapefileError};
use crate::interner::{NAN_BITS, dummy_point, point_is_ordinary, lemma_ordinary_point_is_not_dummy};

verus! {

broadcast use vstd::std_specs::hash::group_hash_axioms;

/// One polyline record: a tsunami area code and its line parts.
#[derive(Debug)]
pub struct TsunamiAreaLines {
    pub tsunami_area_code: u32,
    pub lines: Vec<Line>,
}

/// Classifies one forecast-zone record. A non-polyline shape is
/// skipped, as is the code 0 (tiny islands whose assignment is still
/// open); a missing, empty or unparsable code field is fatal.
pub fn tsunami_lines_from_record(code_field: CodeField, parts: Option<Vec<Line>>) -> (r: Result<
    Option<TsunamiAreaLines>,
    ShapefileError,
>)
    ensures
        match r {
            Ok(Some(al)) => {
                &&& parts matches Some(ls) && al.lines == ls
                &&& code_field matches Some(Some(bytes)) && spec_is_code(bytes@)
                    && al.tsunami_area_code == spec_digits_value(bytes@) && al.tsunami_area_code
                    != 0
            },
            Ok(None) => parts is None || (code_field matches Some(Some(bytes)) && spec_is_code(
                bytes@,
            ) && spec_digits_value(bytes@) == 0),
            Err(ShapefileError::MissingCode) => parts is Some && (code_field is None
                || code_field matches Some(None)),
            Err(ShapefileError::BadCode) => parts is Some && (code_field matches Some(Some(bytes))
                && !spec_is_code(bytes@)),
        },
{
    let ls = match parts {
        None => {
            return Ok(None);
        },
        Some(ls) => ls,
    };
    let code: u32 = match &code_field {
        None => {
            return Err(ShapefileError::MissingCode);
        },
        Some(None) => {
            return Err(ShapefileError::MissingCode);
        },
        Some(Some(bytes)) => match parse_code(bytes) {
            Some(c) => c,
            None => {
                return Err(ShapefileError::BadCode);
            },
        },
    };
    if code == 0 {
        return Ok(None);
    }
    Ok(Some(TsunamiAreaLines { tsunami_area_code: code, lines: ls }))
}

/// A vertex tagged with the tsunami area code it belongs to.
#[derive(Clone, Copy, PartialEq, Eq, Structural, Debug)]
pub struct CodedPoint {
    pub point: Point,
    pub code: u32,
}

impl CodedPoint {
    /// Injective key of the pair: the point's key in the high bits, the
    /// code below.
    pub open spec fn spec_key(self) -> u128 {
        (self.point.spec_key() * 0x1_0000_0000u128 + self.code) as u128
    }
}

pub proof fn lemma_coded_point_key_injective(a: CodedPoint, b: CodedPoint)
    ensures
        a.spec_key() == b.spec_key() ==> a == b,
{
    if a.spec_key() == b.spec_key() {
        assert(a.point.spec_key() == b.point.spec_key() && a.code == b.code)
            by (nonlinear_arith)
            requires
                a.point.spec_key() * 0x1_0000_0000u128 + a.code == b.point.spec_key()
                    * 0x1_0000_0000u128 + b.code,
                a.code < 0x1_0000_0000u128,
                b.code < 0x1_0000_0000u128,
        {
        }
        lemma_point_key_injective(a.point, b.point);
    }
}

/// The reserved dummy pair at index 0.
pub open spec fn dummy_coded_point() -> CodedPoint {
    CodedPoint { point: dummy_point(), code: 0 }
}

/// Deduplicating buffer of coded vertices, index 0 reserved.
pub struct CodedVertexBuffer {
    buffer: Vec<CodedPoint>,
    dict: HashMap<u128, usize>,
}

impl CodedVertexBuffer {
    pub closed spec fn points(self) -> Seq<CodedPoint> {
        self.buffer@
    }

    pub closed spec fn wf(self) -> bool {
        &&& forall|i: int|
            0 <= i < self.buffer@.len() ==> #[trigger] self.dict@.contains_key(
                self.buffer@[i].spec_key(),
            ) && self.dict@[self.buffer@[i].spec_key()] == i
        &&& forall|k: u128|
            #[trigger] self.dict@.contains_key(k) ==> self.dict@[k] < self.buffer@.len()
                && self.buffer@[self.dict@[k] as int].spec_key() == k
        &&& self.buffer@.len() >= 1
        &&& self.buffer@[0] == dummy_coded_point()
    }

    pub open spec fn has(self, p: CodedPoint) -> bool {
        exists|i: int| 0 <= i < self.points().len() && self.points()[i] == p
    }

    pub fn new() -> (r: CodedVertexBuffer)
        ensures
            r.wf(),
            r.points() == seq![dummy_coded_point()],
    {
        let mut buffer: Vec<CodedPoint> = Vec::new();
        let dummy = CodedPoint { point: Point { lat: NAN_BITS, lon: NAN_BITS }, code: 0 };
        buffer.push(dummy);
        let mut dict: HashMap<u128, usize> = HashMap::new();
        let k = (dummy.point.key() as u128) * 0x1_0000_0000u128;
        proof {
            assert(k == dummy.spec_key());
        }
        dict.insert(k, 0);
        let r = CodedVertexBuffer { buffer, dict };
        proof {
            assert(r.buffer@ =~= seq![dummy_coded_point()]);
        }
        r
    }

    /// As the plain interner's `insert`, for coded vertices: the same
    /// pair always receives the same index, and only the dummy sits at
    /// index 0.
    pub fn insert(&mut self, p: CodedPoint) -> (idx: usize)
        requires
            old(self).wf(),
        ensures
            final(self).wf(),
            idx < final(self).points().len(),
            final(self).points()[idx as int] == p,
            old(self).has(p) ==> final(self).points() == old(self).points(),
            !old(self).has(p) ==> final(self).points() == old(self).points().push(p),
            forall|j: int|
                0 <= j < old(self).points().len() && old(self).points()[j] == p ==> idx == j,
            idx == 0 <==> p == dummy_coded_point(),
    {
        proof {
            assert forall|j: int|
                0 <= j < self.buffer@.len() && self.buffer@[j] == p implies self.dict@.contains_key(
                p.spec_key(),
            ) && self.dict@[p.spec_key()] == j by {}
        }
        let k = (p.point.key() as u128) * 0x1_0000_0000u128 + (p.code as u128);
        proof {
            assert(k == p.spec_key());
        }
        let idx = match self.dict.get(&k) {
            Some(index) => {
                let idx = *index;
                proof {
                    lemma_coded_point_key_injective(self.buffer@[idx as int], p);
                }
                idx
            },
            None => {
                let index = self.buffer.len();
                self.buffer.push(p);
                self.dict.insert(k, index);
                proof {
                    assert forall|i: int| 0 <= i < self.buffer@.len() implies #[trigger] self
                        .dict@.contains_key(self.buffer@[i].spec_key()) && self.dict@[self
                        .buffer@[i].spec_key()] == i by {
                        if i < self.buffer@.len() - 1 {
                            lemma_coded_point_key_injective(self.buffer@[i], p);
                        }
                    }
                }
                index
            },
        };
        proof {
            if p == dummy_coded_point() {
                assert(self.buffer@[0] == dummy_coded_point());
            }
            if idx == 0 {
                assert(self.points()[0] == dummy_coded_point());
            }
        }
        idx
    }

    pub fn into_buffer(self) -> (r: Vec<CodedPoint>)
        ensures
            r@ == self.points(),
    {
        self.buffer
    }
}

/// The packed shape of the forecast lines: every vertex of every line
/// of every record, each line closed by a separator.
pub open spec fn spec_tsunami_flat(entries: Seq<TsunamiAreaLines>) -> Seq<Option<CodedPoint>>
    decreases entries.len(),
{
    if entries.len() == 0 {
        Seq::empty()
    } else {
        spec_tsunami_flat(entries.drop_last()) + spec_entry_flat(
            entries.last().lines@,
            entries.last().tsunami_area_code,
        )
    }
}

/// One record's lines, each vertex coded, a separator after each line.
pub open spec fn spec_entry_flat(lines: Seq<Line>, code: u32) -> Seq<Option<CodedPoint>>
    decreases lines.len(),
{
    if lines.len() == 0 {
        Seq::empty()
    } else {
        spec_entry_flat(lines.drop_last(), code) + lines.last()@.map_values(
            |p: Point| Some(CodedPoint { point: p, code }),
        ) + seq![None]
    }
}

/// The total number of vertices over all records.
pub open spec fn spec_tsunami_total(entries: Seq<TsunamiAreaLines>) -> nat
    decreases entries.len(),
{
    if entries.len() == 0 {
        0
    } else {
        spec_tsunami_total(entries.drop_last()) + crate::lod::total_points(
            entries.last().lines@,
        )
    }
}

/// Interns and packs every forecast line: each line's coded vertex
/// indices followed by the separator 0, across all records in order.
/// Every emitted index is in range, and 0 marks exactly the line ends.
pub fn pack_tsunami_lines(vb: &mut CodedVertexBuffer, entries: &Vec<TsunamiAreaLines>) -> (r:
    Vec<u32>)
    requires
        old(vb).wf(),
        forall|e: int, t: int, w: int|
            0 <= e < entries@.len() && 0 <= t < entries@[e].lines@.len() && 0 <= w
                < entries@[e].lines@[t]@.len() ==> point_is_ordinary(
                #[trigger] entries@[e].lines@[t]@[w],
            ),
        old(vb).points().len() + spec_tsunami_total(entries@) <= u32::MAX,
    ensures
        final(vb).wf(),
        old(vb).points().len() <= final(vb).points().len(),
        forall|i: int|
            0 <= i < old(vb).points().len() ==> #[trigger] final(vb).points()[i]
                == old(vb).points()[i],
        r@.len() == spec_tsunami_flat(entries@).len(),
        forall|t: int|
            0 <= t < r@.len() && spec_tsunami_flat(entries@)[t] is None ==> #[trigger] r@[t] == 0,
        forall|t: int|
            0 <= t < r@.len() && spec_tsunami_flat(entries@)[t] is Some ==> #[trigger] r@[t] != 0
                && r@[t] < final(vb).points().len() && final(vb).points()[r@[t] as int]
                == spec_tsunami_flat(entries@)[t]->0,
        forall|t: int| 0 <= t < r@.len() ==> #[trigger] r@[t] < final(vb).points().len(),
{
    let ghost base = old(vb).points().len() as int;
    let mut out: Vec<u32> = Vec::new();
    let mut e: usize = 0;
    while e < entries.len()
        invariant
            vb.wf(),
            e <= entries@.len(),
            base == old(vb).points().len(),
            forall|e2: int, t: int, w: int|
                0 <= e2 < entries@.len() && 0 <= t < entries@[e2].lines@.len() && 0 <= w
                    < entries@[e2].lines@[t]@.len() ==> point_is_ordinary(
                    #[trigger] entries@[e2].lines@[t]@[w],
                ),
            base + spec_tsunami_total(entries@) <= u32::MAX,
            base <= vb.points().len() <= base + spec_tsunami_total(entries@.take(e as int)),
            forall|i: int|
                0 <= i < base ==> #[trigger] vb.points()[i] == old(vb).points()[i],
            out@.len() == spec_tsunami_flat(entries@.take(e as int)).len(),
            forall|t: int|
                0 <= t < out@.len() && spec_tsunami_flat(entries@.take(e as int))[t] is None
                    ==> #[trigger] out@[t] == 0,
            forall|t: int|
                0 <= t < out@.len() && spec_tsunami_flat(entries@.take(e as int))[t] is Some
                    ==> #[trigger] out@[t] != 0 && out@[t] < vb.points().len() && vb.points()[
                    out@[t] as int
                ] == spec_tsunami_flat(entries@.take(e as int))[t]->0,
        decreases entries@.len() - e,
    {
        let entry = &entries[e];
        let code = entry.tsunami_area_code;
        let ghost flat_base = spec_tsunami_flat(entries@.take(e as int));
        let ghost vbp_entry = vb.points();
        proof {
            assert(entries@.take(e + 1).drop_last() =~= entries@.take(e as int));
            assert(entries@.take(e + 1).last() == entries@[e as int]);
            lemma_tsunami_total_take(entries@, e as int);
            lemma_tsunami_total_prefix(entries@, e + 1);
        }
        let mut t: usize = 0;
        while t < entry.lines.len()
            invariant
                vb.wf(),
                e < entries@.len(),
                entry == &entries@[e as int],
                code == entry.tsunami_area_code,
                t <= entry.lines@.len(),
                base == old(vb).points().len(),
                forall|e2: int, t2: int, w: int|
                    0 <= e2 < entries@.len() && 0 <= t2 < entries@[e2].lines@.len() && 0 <= w
                        < entries@[e2].lines@[t2]@.len() ==> point_is_ordinary(
                        #[trigger] entries@[e2].lines@[t2]@[w],
                    ),
                base + spec_tsunami_total(entries@) <= u32::MAX,
                vbp_entry.len() <= base + spec_tsunami_total(entries@.take(e as int)),
                base <= vbp_entry.len(),
                spec_tsunami_total(entries@.take(e + 1)) <= spec_tsunami_total(entries@),
                spec_tsunami_total(entries@.take(e + 1)) == spec_tsunami_total(
                    entries@.take(e as int),
                ) + crate::lod::total_points(entry.lines@),
                vbp_entry.len() <= vb.points().len() <= vbp_entry.len()
                    + crate::lod::total_points(entry.lines@.take(t as int)),
                crate::lod::total_points(entry.lines@.take(t as int)) <= crate::lod::total_points(
                    entry.lines@,
                ),
                forall|i: int| 0 <= i < vbp_entry.len() ==> #[trigger] vb.points()[i]
                    == vbp_entry[i],
                forall|i: int|
                    0 <= i < base ==> #[trigger] vb.points()[i] == old(vb).points()[i],
                out@.len() == flat_base.len() + spec_entry_flat(
                    entry.lines@.take(t as int),
                    code,
                ).len(),
                flat_base == spec_tsunami_flat(entries@.take(e as int)),
                forall|t2: int|
                    0 <= t2 < out@.len() && (flat_base + spec_entry_flat(
                        entry.lines@.take(t as int),
                        code,
                    ))[t2] is None ==> #[trigger] out@[t2] == 0,
                forall|t2: int|
                    0 <= t2 < out@.len() && (flat_base + spec_entry_flat(
                        entry.lines@.take(t as int),
                        code,
                    ))[t2] is Some ==> #[trigger] out@[t2] != 0 && out@[t2] < vb.points().len()
                        && vb.points()[out@[t2] as int] == (flat_base + spec_entry_flat(
                        entry.lines@.take(t as int),
                        code,
                    ))[t2]->0,
            decreases entry.lines@.len() - t,
        {
            let line = &entry.lines[t];
            let ghost flat0 = flat_base + spec_entry_flat(entry.lines@.take(t as int), code);
            let ghost vbp0 = vb.points();
            proof {
                assert(entry.lines@.take(t + 1).drop_last() =~= entry.lines@.take(t as int));
                assert(entry.lines@.take(t + 1).last() == entry.lines@[t as int]);
                lemma_line_total_take(entry.lines@, t as int);
            }
            let n = line.vertices.len();
            let mut w: usize = 0;
            while w < n
                invariant
                    vb.wf(),
                    e < entries@.len(),
                    entry == &entries@[e as int],
                    t < entry.lines@.len(),
                    line == &entry.lines@[t as int],
                    n == line@.len(),
                    w <= n,
                    code == entry.tsunami_area_code,
                    base == old(vb).points().len(),
                    forall|e2: int, t2: int, w2: int|
                        0 <= e2 < entries@.len() && 0 <= t2 < entries@[e2].lines@.len() && 0 <= w2
                            < entries@[e2].lines@[t2]@.len() ==> point_is_ordinary(
                            #[trigger] entries@[e2].lines@[t2]@[w2],
                        ),
                    base + spec_tsunami_total(entries@) <= u32::MAX,
                    spec_tsunami_total(entries@.take(e + 1)) <= spec_tsunami_total(entries@),
                    spec_tsunami_total(entries@.take(e + 1)) == spec_tsunami_total(
                        entries@.take(e as int),
                    ) + crate::lod::total_points(entry.lines@),
                    vbp_entry.len() <= base + spec_tsunami_total(entries@.take(e as int)),
                    base <= vbp_entry.len(),
                    crate::lod::total_points(entry.lines@.take(t + 1)) <= crate::lod::total_points(
                        entry.lines@,
                    ),
                    crate::lod::total_points(entry.lines@.take(t + 1))
                        == crate::lod::total_points(entry.lines@.take(t as int)) + line@.len(),
                    vbp0.len() <= vbp_entry.len() + crate::lod::total_points(
                        entry.lines@.take(t as int),
                    ),
                    vbp_entry.len() <= vbp0.len(),
                    vbp0.len() <= vb.points().len() <= vbp0.len() + w,
                    forall|i: int| 0 <= i < vbp0.len() ==> #[trigger] vb.points()[i] == vbp0[i],
                    forall|i: int|
                        0 <= i < base ==> #[trigger] vb.points()[i] == old(vb).points()[i],
                    out@.len() == flat0.len() + w,
                    forall|t2: int|
                        0 <= t2 < flat0.len() && flat0[t2] is None ==> #[trigger] out@[t2] == 0,
                    forall|t2: int|
                        0 <= t2 < flat0.len() && flat0[t2] is Some ==> #[trigger] out@[t2] != 0
                            && out@[t2] < vb.points().len() && vb.points()[out@[t2] as int]
                            == flat0[t2]->0,
                    forall|t2: int|
                        flat0.len() <= t2 < out@.len() ==> #[trigger] out@[t2] != 0 && out@[t2]
                            < vb.points().len() && vb.points()[out@[t2] as int] == (CodedPoint {
                            point: line@[t2 - flat0.len()],
                            code,
                        }),
                decreases n - w,
            {
                let p = line.vertices[w];
                let cp = CodedPoint { point: p, code };
                let ghost vb_before = vb.points();
                let idx = vb.insert(cp);
                proof {
                    lemma_ordinary_point_is_not_dummy(p);
                    assert(cp != dummy_coded_point());
                    assert(idx < base + spec_tsunami_total(entries@.take(e + 1)));
                    assert forall|i: int|
                        0 <= i < vbp0.len() implies #[trigger] vb.points()[i] == vbp0[i] by {
                        assert(vb.points()[i] == vb_before[i]);
                    }
                }
                out.push(idx as u32);
                w += 1;
            }
            out.push(0);
            proof {
                let ef1 = spec_entry_flat(entry.lines@.take(t + 1), code);
                assert(ef1 == spec_entry_flat(entry.lines@.take(t as int), code)
                    + line@.map_values(|p: Point| Some(CodedPoint { point: p, code })) + seq![
                    None,
                ]);
                let flat1 = flat_base + ef1;
                assert(out@.len() == flat1.len());
                assert forall|t2: int|
                    0 <= t2 < out@.len() && flat1[t2] is None implies #[trigger] out@[t2]
                    == 0 by {
                    if t2 < flat0.len() {
                        assert(flat1[t2] == flat0[t2]);
                    } else if t2 < flat0.len() + line@.len() {
                        assert(flat1[t2] == Some(CodedPoint {
                            point: line@[t2 - flat0.len()],
                            code,
                        }));
                    }
                }
                assert forall|t2: int|
                    0 <= t2 < out@.len() && flat1[t2] is Some implies #[trigger] out@[t2] != 0
                    && out@[t2] < vb.points().len() && vb.points()[out@[t2] as int]
                    == flat1[t2]->0 by {
                    if t2 < flat0.len() {
                        assert(flat1[t2] == flat0[t2]);
                    } else if t2 < flat0.len() + line@.len() {
                        assert(flat1[t2] == Some(CodedPoint {
                            point: line@[t2 - flat0.len()],
                            code,
                        }));
                    }
                }
            }
            t += 1;
        }
        proof {
            assert(entry.lines@.take(entry.lines@.len() as int) =~= entry.lines@);
            assert(spec_tsunami_flat(entries@.take(e + 1)) == flat_base + spec_entry_flat(
                entry.lines@,
                code,
            ));
        }
        e += 1;
    }
    proof {
        assert(entries@.take(entries@.len() as int) =~= entries@);
    }
    out
}

proof fn lemma_tsunami_total_take(entries: Seq<TsunamiAreaLines>, e: int)
    requires
        0 <= e < entries.len(),
    ensures
        spec_tsunami_total(entries.take(e + 1)) == spec_tsunami_total(entries.take(e))
            + crate::lod::total_points(entries[e].lines@),
{
    assert(entries.take(e + 1).drop_last() =~= entries.take(e));
    assert(entries.take(e + 1).last() == entries[e]);
}

proof fn lemma_tsunami_total_prefix(entries: Seq<TsunamiAreaLines>, m: int)
    requires
        0 <= m <= entries.len(),
    ensures
        spec_tsunami_total(entries.take(m)) <= spec_tsunami_total(entries),
    decreases entries.len() - m,
{
    if m == entries.len() {
        assert(entries.take(m) =~= entries);
    } else {
        assert(entries.take(m + 1).drop_last() =~= entries.take(m));
        lemma_tsunami_total_prefix(entries, m + 1);
    }
}

proof fn lemma_line_total_take(ls: Seq<Line>, t: int)
    requires
        0 <= t < ls.len(),
    ensures
        crate::lod::total_points(ls.take(t + 1)) == crate::lod::total_points(ls.take(t))
            + ls[t]@.len(),
        crate::lod::total_points(ls.take(t + 1)) <= crate::lod::total_points(ls),
    decreases ls.len() - t,
{
    assert(ls.take(t + 1).drop_last() =~= ls.take(t));
    assert(ls.take(t + 1).last() == ls[t]);
    if t + 1 == ls.len() {
        assert(ls.take(t + 1) =~= ls);
    } else {
        lemma_line_total_take(ls, t + 1);
    }
}

} // verus!
