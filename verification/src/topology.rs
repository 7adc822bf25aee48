//! Ring topology: per-vertex incidence and adjacency (the tally pass).
//!
//! Every ring contributes, for each of its positions, one *mark*: the
//! point at that position, its two neighbours in the ring (wrapping),
//! and the ring's area code. The tally folds all marks into a table
//! keyed by point, from which junctions ("cut points", adjacency ≥ 3)
//! and prefecture incidences are read.

use vstd::prelude::*;
use std::collections::HashMap;
use crate::point::{Point, lemma_point_key_injective};
use crate::bbox::BoundingBox;

verus! {

broadcast use vstd::std_specs::hash::group_hash_axioms;

/// Sentinel area code for foreign or uncoded regions: kept for geometry,
/// excluded from topology classification.
pub const UNNUMBERED_AREA: u32 = 0;

/// A closed polygon boundary, as read from the shapefile (the seam point
/// is usually repeated: first equals last).
#[derive(Debug)]
pub struct Ring {
    pub points: Vec<Point>,
}

impl Ring {
    pub open spec fn view(self) -> Seq<Point> {
        self.points@
    }
}

/// One record of the shapefile: an area code, the bounding box of all
/// its rings, and the rings themselves.
#[derive(Debug)]
pub struct AreaRings {
    pub area_code: u32,
    pub bounding_box: BoundingBox,
    pub rings: Vec<Ring>,
}

/// One position of one ring: the point there, its ring neighbours, and
/// the area the ring belongs to.
#[derive(Clone, Copy, PartialEq, Eq, Structural, Debug)]
pub struct Mark {
    pub cur: Point,
    pub prev: Point,
    pub next: Point,
    pub area: u32,
}

/// Whether the two wrap-around neighbours of position `i` of a ring
/// differ (they do at every position of a proper ring).
pub open spec fn ring_neighbours_distinct(ring: Seq<Point>, i: int) -> bool {
    ring[if i == 0 {
        ring.len() - 1
    } else {
        i - 1
    }] != ring[if i == ring.len() - 1 {
        0
    } else {
        i + 1
    }]
}

/// The mark of position `i` of ring `r` (neighbours wrap around).
pub open spec fn ring_mark(r: Seq<Point>, area: u32, i: int) -> Mark {
    Mark {
        cur: r[i],
        prev: r[if i == 0 { r.len() - 1 } else { i - 1 }],
        next: r[if i == r.len() - 1 { 0 } else { i + 1 }],
        area,
    }
}

/// All marks of one ring, in position order.
pub open spec fn ring_marks(r: Seq<Point>, area: u32) -> Seq<Mark> {
    Seq::new(r.len(), |i: int| ring_mark(r, area, i))
}

/// All marks of a list of rings sharing one area code.
pub open spec fn rings_marks(rs: Seq<Seq<Point>>, area: u32) -> Seq<Mark>
    decreases rs.len(),
{
    if rs.len() == 0 {
        Seq::empty()
    } else {
        rings_marks(rs.drop_last(), area) + ring_marks(rs.last(), area)
    }
}

/// The point sequences of a list of rings.
pub open spec fn rings_views(rs: Seq<Ring>) -> Seq<Seq<Point>> {
    rs.map_values(|r: Ring| r.points@)
}

/// The point sequences of every ring of every record, in record order.
pub open spec fn entries_ring_views(es: Seq<AreaRings>) -> Seq<Seq<Point>>
    decreases es.len(),
{
    if es.len() == 0 {
        Seq::empty()
    } else {
        entries_ring_views(es.drop_last()) + rings_views(es.last().rings@)
    }
}

/// All marks of all records, in record order.
pub open spec fn entries_marks(es: Seq<AreaRings>) -> Seq<Mark>
    decreases es.len(),
{
    if es.len() == 0 {
        Seq::empty()
    } else {
        entries_marks(es.drop_last()) + rings_marks(
            rings_views(es.last().rings@),
            es.last().area_code,
        )
    }
}

/// Emits the marks of all records, in record, ring and position order.
pub fn collect_marks(entries: &Vec<AreaRings>) -> (r: Vec<Mark>)
    ensures
        r@ == entries_marks(entries@),
{
    let mut out: Vec<Mark> = Vec::new();
    let mut k: usize = 0;
    while k < entries.len()
        invariant
            k <= entries@.len(),
            out@ == entries_marks(entries@.take(k as int)),
        decreases entries@.len() - k,
    {
        let entry = &entries[k];
        let area = entry.area_code;
        let mut rk: usize = 0;
        while rk < entry.rings.len()
            invariant
                rk <= entry.rings@.len(),
                entry == &entries@[k as int],
                k < entries@.len(),
                out@ == entries_marks(entries@.take(k as int)) + rings_marks(
                    rings_views(entry.rings@).take(rk as int),
                    area,
                ),
                area == entry.area_code,
            decreases entry.rings@.len() - rk,
        {
            let ring = &entry.rings[rk];
            let n = ring.points.len();
            let ghost base = out@;
            let mut i: usize = 0;
            while i < n
                invariant
                    i <= n,
                    n == ring@.len(),
                    ring == &entry.rings@[rk as int],
                    rk < entry.rings@.len(),
                    out@ == base + ring_marks(ring@, area).take(i as int),
                decreases n - i,
            {
                let prev_index = if i == 0 {
                    n - 1
                } else {
                    i - 1
                };
                let next_index = if i == n - 1 {
                    0usize
                } else {
                    i + 1
                };
                let m = Mark {
                    cur: ring.points[i],
                    prev: ring.points[prev_index],
                    next: ring.points[next_index],
                    area,
                };
                out.push(m);
                proof {
                    assert(ring_marks(ring@, area).take(i + 1) =~= ring_marks(ring@, area).take(
                        i as int,
                    ).push(m));
                }
                i += 1;
            }
            proof {
                assert(ring_marks(ring@, area).take(n as int) =~= ring_marks(ring@, area));
                let rv = rings_views(entry.rings@);
                assert(rv.take(rk + 1).drop_last() =~= rv.take(rk as int));
                assert(rv.take(rk + 1).last() == ring@);
                assert(rings_marks(rv.take(rk + 1), area) == rings_marks(rv.take(rk as int), area)
                    + ring_marks(ring@, area));
            }
            rk += 1;
        }
        proof {
            let rv = rings_views(entry.rings@);
            assert(rv.take(entry.rings@.len() as int) =~= rv);
            assert(entries@.take(k + 1).drop_last() =~= entries@.take(k as int));
            assert(entries@.take(k + 1).last() == entries@[k as int]);
            assert(entries_marks(entries@.take(k + 1)) == entries_marks(entries@.take(k as int))
                + rings_marks(rv, area));
        }
        k += 1;
    }
    proof {
        assert(entries@.take(entries@.len() as int) =~= entries@);
    }
    out
}

} // verus!

verus! {

/// Linear membership test for area codes.
pub fn contains_u32(v: &Vec<u32>, x: u32) -> (r: bool)
    ensures
        r <==> v@.contains(x),
{
    let mut i: usize = 0;
    while i < v.len()
        invariant
            i <= v@.len(),
            forall|j: int| 0 <= j < i ==> v@[j] != x,
        decreases v@.len() - i,
    {
        if v[i] == x {
            return true;
        }
        i += 1;
    }
    false
}

/// Linear membership test for points.
pub fn contains_point(v: &Vec<Point>, x: Point) -> (r: bool)
    ensures
        r <==> v@.contains(x),
{
    let mut i: usize = 0;
    while i < v.len()
        invariant
            i <= v@.len(),
            forall|j: int| 0 <= j < i ==> v@[j] != x,
        decreases v@.len() - i,
    {
        if v[i] == x {
            return true;
        }
        i += 1;
    }
    false
}

proof fn lemma_push_no_dup<T>(s: Seq<T>, x: T)
    requires
        s.no_duplicates(),
        !s.contains(x),
    ensures
        s.push(x).no_duplicates(),
{
    let t = s.push(x);
    assert forall|i: int, j: int| 0 <= i < t.len() && 0 <= j < t.len() && i != j implies t[i]
        != t[j] by {
        if i < s.len() && j < s.len() {
        } else if i == s.len() {
            assert(s.contains(s[j]) == true);
        } else if j == s.len() {
            assert(s.contains(s[i]) == true);
        }
    }
}

/// Whether some mark puts point `p` on a ring.
pub open spec fn mark_occurs(ms: Seq<Mark>, p: Point) -> bool {
    exists|j: int| 0 <= j < ms.len() && ms[j].cur == p
}

/// Whether some mark makes area `a` incident to point `p`.
pub open spec fn mark_area_incident(ms: Seq<Mark>, p: Point, a: u32) -> bool {
    exists|j: int| 0 <= j < ms.len() && ms[j].cur == p && ms[j].area == a
}

/// Whether some mark makes point `q` a ring neighbour of point `p`.
pub open spec fn mark_adjacent(ms: Seq<Mark>, p: Point, q: Point) -> bool {
    exists|j: int|
        0 <= j < ms.len() && ms[j].cur == p && (ms[j].prev == q || ms[j].next == q)
}

/// Whether point `p` is a junction: at least three distinct ring
/// neighbours meet there.
pub open spec fn spec_is_junction(ms: Seq<Mark>, p: Point) -> bool {
    exists|a: Point, b: Point, c: Point|
        #![trigger mark_adjacent(ms, p, a), mark_adjacent(ms, p, b), mark_adjacent(ms, p, c)]
        a != b && b != c && a != c && mark_adjacent(ms, p, a) && mark_adjacent(ms, p, b)
            && mark_adjacent(ms, p, c)
}

/// The tallied references of one point: its incident area codes and its
/// ring neighbours, each without duplicates.
#[derive(Debug)]
pub struct PointReference {
    pub areas: Vec<u32>,
    pub adjacent: Vec<Point>,
}

impl PointReference {
    pub fn new() -> (r: PointReference)
        ensures
            r.areas@ == Seq::<u32>::empty(),
            r.adjacent@ == Seq::<Point>::empty(),
    {
        PointReference { areas: Vec::new(), adjacent: Vec::new() }
    }

    /// The incident area codes.
    pub fn area_references(&self) -> (r: &Vec<u32>)
        ensures
            r == &self.areas,
    {
        &self.areas
    }

    /// How many distinct points neighbour this one.
    pub fn adjacent_points_count(&self) -> (r: usize)
        ensures
            r == self.adjacent@.len(),
    {
        self.adjacent.len()
    }
}

/// The tally of all marks: for every point that occurs on some ring,
/// the set of incident areas and the set of adjacent points.
pub struct PointReferences {
    keys: Vec<Point>,
    refs: Vec<PointReference>,
    dict: HashMap<u64, usize>,
    marks: Ghost<Seq<Mark>>,
}

impl PointReferences {
    /// The marks this table was built from.
    pub closed spec fn marks(self) -> Seq<Mark> {
        self.marks@
    }

    pub closed spec fn keys_seq(self) -> Seq<Point> {
        self.keys@
    }

    pub closed spec fn refs_seq(self) -> Seq<PointReference> {
        self.refs@
    }

    /// Whether point `p` is tracked.
    pub open spec fn spec_has(self, p: Point) -> bool {
        exists|i: int| 0 <= i < self.keys_seq().len() && self.keys_seq()[i] == p
    }

    /// The index of a tracked point.
    pub open spec fn index_of(self, p: Point) -> int {
        choose|i: int| 0 <= i < self.keys_seq().len() && self.keys_seq()[i] == p
    }

    /// The number of distinct ring neighbours of a tracked point.
    pub open spec fn spec_adjacency_count(self, p: Point) -> nat {
        self.refs_seq()[self.index_of(p)].adjacent@.len()
    }

    /// The table is exactly the fold of its marks: a point is tracked
    /// iff it occurs; its area and neighbour lists are duplicate-free
    /// and hold exactly what the marks say.
    pub closed spec fn wf(self) -> bool {
        &&& self.keys@.len() == self.refs@.len()
        &&& forall|i: int|
            0 <= i < self.keys@.len() ==> #[trigger] self.dict@.contains_key(
                self.keys@[i].spec_key(),
            ) && self.dict@[self.keys@[i].spec_key()] == i
        &&& forall|k: u64|
            #[trigger] self.dict@.contains_key(k) ==> self.dict@[k] < self.keys@.len()
                && self.keys@[self.dict@[k] as int].spec_key() == k
        &&& forall|i: int|
            0 <= i < self.keys@.len() ==> mark_occurs(self.marks@, #[trigger] self.keys@[i])
        &&& forall|j: int|
            0 <= j < self.marks@.len() ==> self.spec_has(#[trigger] self.marks@[j].cur)
        &&& forall|i: int|
            0 <= i < self.refs@.len() ==> (#[trigger] self.refs@[i].areas@).no_duplicates()
                && self.refs@[i].adjacent@.no_duplicates()
        &&& forall|i: int, a: u32|
            0 <= i < self.refs@.len() ==> ((#[trigger] self.refs@[i].areas@.contains(a))
                <==> mark_area_incident(self.marks@, self.keys@[i], a))
        &&& forall|i: int, q: Point|
            0 <= i < self.refs@.len() ==> ((#[trigger] self.refs@[i].adjacent@.contains(q))
                <==> mark_adjacent(self.marks@, self.keys@[i], q))
    }

    /// Tracked points are pairwise distinct.
    proof fn lemma_keys_distinct(self, i: int, j: int)
        requires
            self.wf(),
            0 <= i < self.keys@.len(),
            0 <= j < self.keys@.len(),
            i != j,
        ensures
            self.keys@[i] != self.keys@[j],
    {
        if self.keys@[i] == self.keys@[j] {
            assert(self.dict@.contains_key(self.keys@[i].spec_key()));
            assert(self.dict@.contains_key(self.keys@[j].spec_key()));
            assert(self.dict@[self.keys@[i].spec_key()] == i);
            assert(self.dict@[self.keys@[j].spec_key()] == j);
        }
    }

    /// An empty table.
    pub fn new() -> (r: PointReferences)
        ensures
            r.wf(),
            r.marks() == Seq::<Mark>::empty(),
    {
        PointReferences {
            keys: Vec::new(),
            refs: Vec::new(),
            dict: HashMap::new(),
            marks: Ghost(Seq::empty()),
        }
    }

    /// Folds one mark into the table.
    #[verifier::rlimit(80)]
    fn apply_mark(&mut self, m: Mark)
        requires
            old(self).wf(),
        ensures
            final(self).wf(),
            final(self).marks() == old(self).marks().push(m),
            final(self).keys_seq() == if old(self).spec_has(m.cur) {
                old(self).keys_seq()
            } else {
                old(self).keys_seq().push(m.cur)
            },
    {
        let ghost ms2 = self.marks@.push(m);
        let k = m.cur.key();
        let idx: usize = match self.dict.get(&k) {
            Some(i) => {
                let idx = *i;
                proof {
                    lemma_point_key_injective(self.keys@[idx as int], m.cur);
                }
                idx
            },
            None => {
                let idx = self.keys.len();
                proof {
                    assert forall|i: int|
                        0 <= i < self.keys@.len() implies self.keys@[i] != m.cur by {
                        if self.keys@[i] == m.cur {
                            assert(self.dict@.contains_key(self.keys@[i].spec_key()));
                        }
                    }
                }
                self.keys.push(m.cur);
                self.refs.push(PointReference::new());
                self.dict.insert(k, idx);
                proof {
                    assert forall|i: int| 0 <= i < self.keys@.len() implies #[trigger] self
                        .dict@.contains_key(self.keys@[i].spec_key()) && self.dict@[self
                        .keys@[i].spec_key()] == i by {
                        if i < self.keys@.len() - 1 {
                            lemma_point_key_injective(self.keys@[i], m.cur);
                        }
                    }
                }
                idx
            },
        };
        proof {
            assert(self.keys@[idx as int] == m.cur);
        }
        let ghost keys0 = self.keys@;
        let ghost refs0 = self.refs@;
        let ghost p = keys0[idx as int];
        let pr = &mut self.refs[idx];
        let ghost areas0 = pr.areas@;
        let ghost adj0 = pr.adjacent@;
        if !contains_u32(&pr.areas, m.area) {
            proof {
                lemma_push_no_dup(pr.areas@, m.area);
            }
            pr.areas.push(m.area);
        }
        if !contains_point(&pr.adjacent, m.prev) {
            proof {
                lemma_push_no_dup(pr.adjacent@, m.prev);
            }
            pr.adjacent.push(m.prev);
        }
        let dup = contains_point(&pr.adjacent, m.next);
        if !dup {
            proof {
                lemma_push_no_dup(pr.adjacent@, m.next);
            }
            pr.adjacent.push(m.next);
        }
        proof {
            self.marks@ = ms2;
        }
        proof {
            let s = *self;
            assert(s.keys@ == keys0);
            assert(s.refs@ == refs0.update(idx as int, s.refs@[idx as int]));
            assert(ms2 == old(self).marks@.push(m));
            assert(forall|t: int|
                0 <= t < old(self).marks@.len() ==> ms2[t] == old(self).marks@[t]);
            assert(forall|i: int|
                0 <= i < old(self).keys@.len() ==> s.keys@[i] == old(self).keys@[i]);
            assert(old(self).keys@.len() <= s.keys@.len());
            // Area list of the updated slot: gains exactly `m.area`.
            assert forall|a: u32| s.refs@[idx as int].areas@.contains(a) <==> (areas0.contains(a)
                || a == m.area) by {
                if areas0.contains(a) {
                    assert(s.refs@[idx as int].areas@.contains(a)) by {
                        let w = choose|w: int| 0 <= w < areas0.len() && areas0[w] == a;
                        assert(s.refs@[idx as int].areas@[w] == a);
                    }
                }
                if a == m.area {
                    if areas0.contains(m.area) {
                    } else {
                        assert(s.refs@[idx as int].areas@.contains(a)) by {
                            assert(s.refs@[idx as int].areas@[areas0.len() as int] == m.area);
                        }
                    }
                }
            }
            // Neighbour list of the updated slot: gains exactly prev and next.
            assert forall|q: Point| s.refs@[idx as int].adjacent@.contains(q) <==> (adj0.contains(
                q,
            ) || q == m.prev || q == m.next) by {
                let mid = if !adj0.contains(m.prev) {
                    adj0.push(m.prev)
                } else {
                    adj0
                };
                assert(s.refs@[idx as int].adjacent@ == if !mid.contains(m.next) {
                    mid.push(m.next)
                } else {
                    mid
                });
                if adj0.contains(q) {
                    let w = choose|w: int| 0 <= w < adj0.len() && adj0[w] == q;
                    assert(mid[w] == q);
                    assert(s.refs@[idx as int].adjacent@[w] == q);
                }
                if q == m.prev {
                    assert(mid.contains(q)) by {
                        if !adj0.contains(m.prev) {
                            assert(mid[adj0.len() as int] == m.prev);
                        }
                    }
                    let w = choose|w: int| 0 <= w < mid.len() && mid[w] == q;
                    assert(s.refs@[idx as int].adjacent@[w] == q);
                }
                if q == m.next {
                    assert(s.refs@[idx as int].adjacent@.contains(q)) by {
                        if !mid.contains(m.next) {
                            assert(s.refs@[idx as int].adjacent@[mid.len() as int] == m.next);
                        } else {
                            let w = choose|w: int| 0 <= w < mid.len() && mid[w] == q;
                            assert(s.refs@[idx as int].adjacent@[w] == q);
                        }
                    }
                }
            }
            // Characterizations against the extended mark sequence.
            assert(ms2.drop_last() =~= old(self).marks@);
            assert(ms2.last() == m);
            assert forall|i: int|
                0 <= i < s.keys@.len() implies mark_occurs(ms2, #[trigger] s.keys@[i]) by {
                if i < old(self).keys@.len() {
                    assert(mark_occurs(old(self).marks@, old(self).keys@[i]));
                    let j = choose|j: int|
                        0 <= j < old(self).marks@.len() && old(self).marks@[j].cur == old(
                            self,
                        ).keys@[i];
                    assert(ms2[j].cur == s.keys@[i]);
                } else {
                    assert(s.keys@[i] == m.cur);
                    assert(ms2[ms2.len() - 1].cur == s.keys@[i]);
                }
            }
            assert forall|j: int| 0 <= j < ms2.len() implies s.spec_has(
                #[trigger] ms2[j].cur,
            ) by {
                if j < ms2.len() - 1 {
                    assert(ms2[j] == old(self).marks@[j]);
                    assert(old(self).spec_has(old(self).marks@[j].cur));
                    let i = choose|i: int|
                        0 <= i < old(self).keys@.len() && old(self).keys@[i] == old(
                            self,
                        ).marks@[j].cur;
                    assert(0 <= i < s.keys_seq().len() && s.keys_seq()[i] == ms2[j].cur);
                } else {
                    assert(ms2[j].cur == m.cur);
                    assert(0 <= idx < s.keys_seq().len());
                    assert(s.keys_seq()[idx as int] == ms2[j].cur);
                }
            }
            assert forall|i: int, a: u32| 0 <= i < s.refs@.len() implies ((
            #[trigger] s.refs@[i].areas@.contains(a)) <==> mark_area_incident(
                ms2,
                s.keys@[i],
                a,
            )) by {
                if i != idx {
                    assert(s.refs@[i] == refs0[i]);
                    if s.refs@[i].areas@.contains(a) {
                        let j = choose|j: int|
                            0 <= j < old(self).marks@.len() && old(self).marks@[j].cur
                                == s.keys@[i] && old(self).marks@[j].area == a;
                        assert(ms2[j].cur == s.keys@[i] && ms2[j].area == a);
                    }
                    if mark_area_incident(ms2, s.keys@[i], a) {
                        let j = choose|j: int|
                            0 <= j < ms2.len() && ms2[j].cur == s.keys@[i] && ms2[j].area == a;
                        if j < ms2.len() - 1 {
                            assert(mark_area_incident(old(self).marks@, s.keys@[i], a));
                        } else {
                            s.lemma_keys_distinct(i, idx as int);
                            assert(false);
                        }
                    }
                } else {
                    if areas0.contains(a) {
                        let j = choose|j: int|
                            0 <= j < old(self).marks@.len() && old(self).marks@[j].cur == p
                                && old(self).marks@[j].area == a;
                        assert(ms2[j].cur == p && ms2[j].area == a);
                    }
                    if a == m.area {
                        assert(ms2[ms2.len() - 1].cur == p && ms2[ms2.len() - 1].area == a);
                    }
                    if mark_area_incident(ms2, p, a) {
                        let j = choose|j: int|
                            0 <= j < ms2.len() && ms2[j].cur == p && ms2[j].area == a;
                        if j < ms2.len() - 1 {
                            assert(mark_area_incident(old(self).marks@, p, a));
                        }
                    }
                }
            }
            assert forall|i: int, q: Point| 0 <= i < s.refs@.len() implies ((
            #[trigger] s.refs@[i].adjacent@.contains(q)) <==> mark_adjacent(
                ms2,
                s.keys@[i],
                q,
            )) by {
                if i != idx {
                    assert(s.refs@[i] == refs0[i]);
                    if s.refs@[i].adjacent@.contains(q) {
                        let j = choose|j: int|
                            0 <= j < old(self).marks@.len() && old(self).marks@[j].cur
                                == s.keys@[i] && (old(self).marks@[j].prev == q || old(
                                self,
                            ).marks@[j].next == q);
                        assert(ms2[j].cur == s.keys@[i] && (ms2[j].prev == q || ms2[j].next
                            == q));
                    }
                    if mark_adjacent(ms2, s.keys@[i], q) {
                        let j = choose|j: int|
                            0 <= j < ms2.len() && ms2[j].cur == s.keys@[i] && (ms2[j].prev == q
                                || ms2[j].next == q);
                        if j < ms2.len() - 1 {
                            assert(mark_adjacent(old(self).marks@, s.keys@[i], q));
                        } else {
                            s.lemma_keys_distinct(i, idx as int);
                            assert(false);
                        }
                    }
                } else {
                    if adj0.contains(q) {
                        let j = choose|j: int|
                            0 <= j < old(self).marks@.len() && old(self).marks@[j].cur == p && (
                            old(self).marks@[j].prev == q || old(self).marks@[j].next == q);
                        assert(ms2[j].cur == p && (ms2[j].prev == q || ms2[j].next == q));
                    }
                    if q == m.prev || q == m.next {
                        assert(ms2[ms2.len() - 1].cur == p && (ms2[ms2.len() - 1].prev == q
                            || ms2[ms2.len() - 1].next == q));
                    }
                    if mark_adjacent(ms2, p, q) {
                        let j = choose|j: int|
                            0 <= j < ms2.len() && ms2[j].cur == p && (ms2[j].prev == q
                                || ms2[j].next == q);
                        if j < ms2.len() - 1 {
                            assert(mark_adjacent(old(self).marks@, p, q));
                        }
                    }
                }
            }
            assert forall|k2: u64| #[trigger] s.dict@.contains_key(k2) implies s.dict@[k2]
                < s.keys@.len() && s.keys@[s.dict@[k2] as int].spec_key() == k2 by {
                if old(self).dict@.contains_key(k2) {
                    assert(old(self).keys@[old(self).dict@[k2] as int].spec_key() == k2);
                }
            }
            assert forall|i: int| 0 <= i < s.refs@.len() implies (
            #[trigger] s.refs@[i].areas@).no_duplicates()
                && s.refs@[i].adjacent@.no_duplicates() by {
                if i != idx {
                    assert(s.refs@[i] == refs0[i]);
                    if i < old(self).refs@.len() {
                        assert(refs0[i] == old(self).refs@[i]);
                    }
                }
            }
            assert(s.wf());
        }
    }

    /// Builds the tally of every mark of every record.
    pub fn tally_of(entries: &Vec<AreaRings>) -> (r: PointReferences)
        ensures
            r.wf(),
            r.marks() == entries_marks(entries@),
    {
        let ms = collect_marks(entries);
        let mut table = PointReferences::new();
        let mut j: usize = 0;
        while j < ms.len()
            invariant
                j <= ms@.len(),
                table.wf(),
                table.marks() == ms@.take(j as int),
            decreases ms@.len() - j,
        {
            table.apply_mark(ms[j]);
            proof {
                assert(ms@.take(j + 1) =~= ms@.take(j as int).push(ms@[j as int]));
            }
            j += 1;
        }
        proof {
            assert(ms@.take(ms@.len() as int) =~= ms@);
        }
        table
    }
}

} // verus!

verus! {

/// Whether `pr` is a prefecture incident to point `p`: the prefecture of
/// some incident area other than the sentinel, under the area-to-
/// prefecture table.
pub open spec fn spec_pref_incident(
    ms: Seq<Mark>,
    table: Map<u32, u32>,
    p: Point,
    pr: u32,
) -> bool {
    exists|a: u32|
        mark_area_incident(ms, p, a) && a != UNNUMBERED_AREA && table.contains_key(a)
            && table[a] == pr
}

/// The prefectures shared by both endpoints of a line.
pub open spec fn spec_shared_prefs(
    ms: Seq<Mark>,
    table: Map<u32, u32>,
    first: Point,
    last: Point,
) -> Set<u32> {
    Set::new(
        |pr: u32| spec_pref_incident(ms, table, first, pr) && spec_pref_incident(
            ms,
            table,
            last,
            pr,
        ),
    )
}

impl PointReferences {
    /// For a tracked point, `index_of` inverts `keys_seq`.
    pub proof fn lemma_index_of(self, i: int)
        requires
            self.wf(),
            0 <= i < self.keys_seq().len(),
        ensures
            self.index_of(self.keys_seq()[i]) == i,
    {
        let p = self.keys_seq()[i];
        assert(self.spec_has(p));
        let w = self.index_of(p);
        if w != i {
            self.lemma_keys_distinct(w, i);
        }
    }

    /// Counting three distinct neighbours is the same as the tallied
    /// adjacency list reaching three.
    pub proof fn lemma_junction_count(&self, q: Point)
        requires
            self.wf(),
        ensures
            (self.spec_has(q) && self.spec_adjacency_count(q) >= 3) <==> (mark_occurs(
                self.marks(),
                q,
            ) && spec_is_junction(self.marks(), q)),
    {
        if self.spec_has(q) {
            let i = self.index_of(q);
            assert(0 <= i < self.keys_seq().len() && self.keys_seq()[i] == q);
            assert(mark_occurs(self.marks(), self.keys@[i]));
            let adj = self.refs@[i].adjacent@;
            assert((self.refs@[i].areas@).no_duplicates() && adj.no_duplicates());
            if self.spec_adjacency_count(q) >= 3 {
                assert(adj.len() >= 3);
                assert(adj.contains(adj[0]) && adj.contains(adj[1]) && adj.contains(adj[2]));
                assert(adj[0] != adj[1] && adj[1] != adj[2] && adj[0] != adj[2]);
                assert(mark_adjacent(self.marks(), q, adj[0]));
                assert(mark_adjacent(self.marks(), q, adj[1]));
                assert(mark_adjacent(self.marks(), q, adj[2]));
                assert(spec_is_junction(self.marks(), q));
            }
            if spec_is_junction(self.marks(), q) {
                let (a, b, c) = choose|a: Point, b: Point, c: Point|
                    #![trigger mark_adjacent(self.marks(), q, a), mark_adjacent(self.marks(), q, b), mark_adjacent(self.marks(), q, c)]
                    a != b && b != c && a != c && mark_adjacent(self.marks(), q, a)
                        && mark_adjacent(self.marks(), q, b) && mark_adjacent(
                        self.marks(),
                        q,
                        c,
                    );
                assert(adj.contains(a) && adj.contains(b) && adj.contains(c));
                let wa = choose|w: int| 0 <= w < adj.len() && adj[w] == a;
                let wb = choose|w: int| 0 <= w < adj.len() && adj[w] == b;
                let wc = choose|w: int| 0 <= w < adj.len() && adj[w] == c;
                assert(wa != wb && wb != wc && wa != wc);
                assert(adj.len() >= 3);
            }
        } else {
            if mark_occurs(self.marks(), q) {
                let j = choose|j: int| 0 <= j < self.marks().len() && self.marks()[j].cur == q;
                assert(self.spec_has(self.marks()[j].cur));
                assert(false);
            }
        }
    }

    /// The points where at least three distinct ring edges meet: the
    /// junction ("cut") vertices.
    pub fn cut_points(&self) -> (r: Vec<Point>)
        requires
            self.wf(),
        ensures
            r@.no_duplicates(),
            forall|q: Point|
                #[trigger] r@.contains(q) <==> self.spec_has(q) && self.spec_adjacency_count(q)
                    >= 3,
            forall|q: Point|
                #[trigger] r@.contains(q) <==> mark_occurs(self.marks(), q) && spec_is_junction(
                    self.marks(),
                    q,
                ),
    {
        let mut out: Vec<Point> = Vec::new();
        let mut i: usize = 0;
        while i < self.keys.len()
            invariant
                self.wf(),
                i <= self.keys@.len(),
                out@.no_duplicates(),
                forall|q: Point|
                    #[trigger] out@.contains(q) <==> exists|w: int|
                        0 <= w < i && self.keys_seq()[w] == q && self.refs_seq()[w].adjacent@.len()
                            >= 3,
            decreases self.keys@.len() - i,
        {
            let pr = &self.refs[i];
            let ghost out0 = out@;
            if pr.adjacent.len() >= 3 {
                proof {
                    if out@.contains(self.keys@[i as int]) {
                        let w = choose|w: int|
                            0 <= w < i && self.keys_seq()[w] == self.keys@[i as int]
                                && self.refs_seq()[w].adjacent@.len() >= 3;
                        self.lemma_keys_distinct(w, i as int);
                    }
                    lemma_push_no_dup(out@, self.keys@[i as int]);
                }
                out.push(self.keys[i]);
            }
            proof {
                assert forall|q: Point| #[trigger] out@.contains(q) implies exists|w: int|
                    0 <= w < i + 1 && self.keys_seq()[w] == q && self.refs_seq()[w].adjacent@.len()
                        >= 3 by {
                    if out0.contains(q) {
                        let w = choose|w: int|
                            0 <= w < i && self.keys_seq()[w] == q && self.refs_seq()[
                                w
                            ].adjacent@.len() >= 3;
                        assert(0 <= w < i + 1 && self.keys_seq()[w] == q && self.refs_seq()[
                            w
                        ].adjacent@.len() >= 3);
                    } else {
                        assert(out@ == out0.push(self.keys@[i as int]));
                        assert(q == self.keys@[i as int]);
                        assert(self.refs_seq()[i as int].adjacent@.len() >= 3);
                    }
                }
                assert forall|q: Point|
                    (exists|w: int|
                        0 <= w < i + 1 && self.keys_seq()[w] == q && self.refs_seq()[
                            w
                        ].adjacent@.len() >= 3) implies #[trigger] out@.contains(q) by {
                    let w = choose|w: int|
                        0 <= w < i + 1 && self.keys_seq()[w] == q && self.refs_seq()[
                            w
                        ].adjacent@.len() >= 3;
                    if w < i {
                        assert(out0.contains(q));
                        let v = choose|v: int| 0 <= v < out0.len() && out0[v] == q;
                        assert(out@[v] == q);
                    } else {
                        assert(out@[out@.len() - 1] == q);
                    }
                }
            }
            i += 1;
        }
        proof {
            assert forall|q: Point|
                #[trigger] out@.contains(q) <==> self.spec_has(q) && self.spec_adjacency_count(
                q) >= 3 by {
                if out@.contains(q) {
                    let w = choose|w: int|
                        0 <= w < self.keys_seq().len() && self.keys_seq()[w] == q
                            && self.refs_seq()[w].adjacent@.len() >= 3;
                    self.lemma_index_of(w);
                }
                if self.spec_has(q) && self.spec_adjacency_count(q) >= 3 {
                    let w = self.index_of(q);
                    assert(0 <= w < self.keys_seq().len() && self.keys_seq()[w] == q
                        && self.refs_seq()[w].adjacent@.len() >= 3);
                }
            }
            assert forall|q: Point|
                #[trigger] out@.contains(q) <==> mark_occurs(self.marks(), q)
                    && spec_is_junction(self.marks(), q) by {
                self.lemma_junction_count(q);
            }
        }
        out
    }

    /// Adjacency of a non-junction ring point with distinct neighbours:
    /// a point that lies on some ring between two distinct neighbours has
    /// at least those two neighbours; if it is not a junction (adjacency
    /// at least three), its adjacency set has size exactly two. Interior
    /// points of cut segments are exactly such points.
    pub proof fn lemma_interior_point_adjacency(&self, cp: Seq<Point>, p: Point, j: int)
        requires
            self.wf(),
            forall|q: Point|
                #[trigger] cp.contains(q) <==> self.spec_has(q) && self.spec_adjacency_count(q)
                    >= 3,
            !cp.contains(p),
            0 <= j < self.marks().len(),
            self.marks()[j].cur == p,
            self.marks()[j].prev != self.marks()[j].next,
        ensures
            self.spec_has(p),
            self.spec_adjacency_count(p) == 2,
    {
        assert(self.spec_has(self.marks()[j].cur));
        let i = self.index_of(p);
        assert(0 <= i < self.keys_seq().len() && self.keys_seq()[i] == p);
        let prev = self.marks()[j].prev;
        let next = self.marks()[j].next;
        assert(mark_adjacent(self.marks(), p, prev));
        assert(mark_adjacent(self.marks(), p, next));
        let adj = self.refs_seq()[i].adjacent@;
        assert(adj.contains(prev));
        assert(adj.contains(next));
        let w1 = choose|w1: int| 0 <= w1 < adj.len() && adj[w1] == prev;
        let w2 = choose|w2: int| 0 <= w2 < adj.len() && adj[w2] == next;
        assert(w1 != w2);
        assert(adj.len() >= 2);
        assert(!(self.spec_has(p) && self.spec_adjacency_count(p) >= 3));
    }

    /// The distinct prefectures incident to tracked point `p`: the image
    /// of its incident areas (sentinel excluded) under `table`.
    pub fn pref_references(&self, p: Point, table: &HashMap<u32, u32>) -> (r: Vec<u32>)
        requires
            self.wf(),
            forall|a: u32|
                mark_area_incident(self.marks(), p, a) && a != UNNUMBERED_AREA
                    ==> #[trigger] table@.contains_key(a),
        ensures
            r@.no_duplicates(),
            forall|pr: u32|
                #[trigger] r@.contains(pr) <==> spec_pref_incident(self.marks(), table@, p, pr),
    {
        let k = p.key();
        let idx: usize = match self.dict.get(&k) {
            Some(i) => {
                let idx = *i;
                proof {
                    lemma_point_key_injective(self.keys@[idx as int], p);
                }
                idx
            },
            None => {
                // An untracked point has no incident areas and so no
                // incident prefectures.
                proof {
                    assert forall|pr: u32|
                        !spec_pref_incident(self.marks(), table@, p, pr) by {
                        if spec_pref_incident(self.marks(), table@, p, pr) {
                            let a = choose|a: u32|
                                mark_area_incident(self.marks(), p, a) && a != UNNUMBERED_AREA
                                    && table@.contains_key(a) && table@[a] == pr;
                            let j = choose|j: int|
                                0 <= j < self.marks().len() && self.marks()[j].cur == p
                                    && self.marks()[j].area == a;
                            assert(self.spec_has(self.marks()[j].cur));
                            let i = self.index_of(p);
                            assert(self.dict@.contains_key(self.keys@[i].spec_key()));
                            assert(false);
                        }
                    }
                }
                return Vec::new();
            },
        };
        let ghost i0 = self.index_of(p);
        proof {
            self.lemma_index_of(idx as int);
        }
        let areas = &self.refs[idx].areas;
        let mut out: Vec<u32> = Vec::new();
        let mut t: usize = 0;
        while t < areas.len()
            invariant
                self.wf(),
                0 <= idx < self.refs@.len(),
                areas == &self.refs@[idx as int].areas,
                self.keys@[idx as int] == p,
                t <= areas@.len(),
                out@.no_duplicates(),
                forall|a: u32|
                    mark_area_incident(self.marks(), p, a) && a != UNNUMBERED_AREA
                        ==> #[trigger] table@.contains_key(a),
                forall|pr: u32|
                    #[trigger] out@.contains(pr) <==> exists|w: int|
                        0 <= w < t && areas@[w] != UNNUMBERED_AREA && table@.contains_key(
                            areas@[w],
                        ) && table@[#[trigger] areas@[w]] == pr,
            decreases areas@.len() - t,
        {
            let a = areas[t];
            let ghost out0 = out@;
            if a != UNNUMBERED_AREA {
                proof {
                    assert(areas@.contains(a)) by {
                        assert(areas@[t as int] == a);
                    }
                    assert(mark_area_incident(self.marks(), p, a));
                }
                let pr_code = match table.get(&a) {
                    Some(v) => *v,
                    None => {
                        proof {
                            assert(false);
                        }
                        0
                    },
                };
                if !contains_u32(&out, pr_code) {
                    proof {
                        lemma_push_no_dup(out@, pr_code);
                    }
                    out.push(pr_code);
                }
                proof {
                    assert forall|pr: u32| #[trigger] out@.contains(pr) implies exists|w: int|
                        0 <= w < t + 1 && areas@[w] != UNNUMBERED_AREA && table@.contains_key(
                            areas@[w],
                        ) && table@[areas@[w]] == pr by {
                        if out0.contains(pr) {
                            let w = choose|w: int|
                                0 <= w < t && areas@[w] != UNNUMBERED_AREA && table@.contains_key(
                                    areas@[w],
                                ) && table@[areas@[w]] == pr;
                            assert(0 <= w < t + 1 && areas@[w] != UNNUMBERED_AREA
                                && table@.contains_key(areas@[w]) && table@[areas@[w]] == pr);
                        } else {
                            assert(pr == pr_code);
                            assert(0 <= t < t + 1 && areas@[t as int] != UNNUMBERED_AREA
                                && table@.contains_key(areas@[t as int]) && table@[areas@[t as int]]
                                == pr);
                        }
                    }
                    assert forall|pr: u32|
                        (exists|w: int|
                            0 <= w < t + 1 && areas@[w] != UNNUMBERED_AREA && table@.contains_key(
                                areas@[w],
                            ) && table@[#[trigger] areas@[w]] == pr) implies out@.contains(pr) by {
                        let w = choose|w: int|
                            0 <= w < t + 1 && areas@[w] != UNNUMBERED_AREA && table@.contains_key(
                                areas@[w],
                            ) && table@[areas@[w]] == pr;
                        if w < t {
                            assert(out0.contains(pr));
                            let v = choose|v: int| 0 <= v < out0.len() && out0[v] == pr;
                            assert(out@[v] == pr);
                        } else {
                            assert(pr == pr_code);
                            if out0.contains(pr_code) {
                                let v = choose|v: int| 0 <= v < out0.len() && out0[v] == pr;
                                assert(out@[v] == pr);
                            } else {
                                assert(out@[out@.len() - 1] == pr);
                            }
                        }
                    }
                }
            }
            t += 1;
        }
        proof {
            assert forall|pr: u32|
                #[trigger] out@.contains(pr) <==> spec_pref_incident(
                self.marks(), table@, p, pr) by {
                if out@.contains(pr) {
                    let w = choose|w: int|
                        0 <= w < areas@.len() && areas@[w] != UNNUMBERED_AREA
                            && table@.contains_key(areas@[w]) && table@[areas@[w]] == pr;
                    assert(areas@.contains(areas@[w]));
                    assert(mark_area_incident(self.marks(), p, areas@[w]));
                }
                if spec_pref_incident(self.marks(), table@, p, pr) {
                    let a = choose|a: u32|
                        mark_area_incident(self.marks(), p, a) && a != UNNUMBERED_AREA
                            && table@.contains_key(a) && table@[a] == pr;
                    assert(self.refs@[idx as int].areas@.contains(a));
                    let w = choose|w: int| 0 <= w < areas@.len() && areas@[w] == a;
                    assert(0 <= w < areas@.len() && areas@[w] != UNNUMBERED_AREA
                        && table@.contains_key(areas@[w]) && table@[areas@[w]] == pr);
                }
            }
        }
        out
    }
}

} // verus!

verus! {

/// Every position of every ring of every record contributes its mark.
proof fn lemma_rings_marks_member(rs: Seq<Seq<Point>>, area: u32, r: int, i: int)
    requires
        0 <= r < rs.len(),
        0 <= i < rs[r].len(),
    ensures
        exists|j: int|
            0 <= j < rings_marks(rs, area).len() && #[trigger] rings_marks(rs, area)[j]
                == ring_mark(rs[r], area, i),
    decreases rs.len(),
{
    if r == rs.len() - 1 {
        let j = rings_marks(rs.drop_last(), area).len() as int;
        assert(rings_marks(rs, area)[j + i] == ring_marks(rs.last(), area)[i]);
        assert(rings_marks(rs, area)[j + i] == ring_mark(rs[r], area, i));
    } else {
        lemma_rings_marks_member(rs.drop_last(), area, r, i);
        let j = choose|j: int|
            0 <= j < rings_marks(rs.drop_last(), area).len() && #[trigger] rings_marks(
                rs.drop_last(),
                area,
            )[j] == ring_mark(rs.drop_last()[r], area, i);
        assert(rings_marks(rs, area)[j] == ring_mark(rs[r], area, i));
    }
}

proof fn lemma_entries_marks_member(es: Seq<AreaRings>, k: int, r: int, i: int)
    requires
        0 <= k < es.len(),
        0 <= r < es[k].rings@.len(),
        0 <= i < es[k].rings@[r]@.len(),
    ensures
        exists|j: int|
            0 <= j < entries_marks(es).len() && #[trigger] entries_marks(es)[j] == ring_mark(
                es[k].rings@[r]@,
                es[k].area_code,
                i,
            ),
    decreases es.len(),
{
    if k == es.len() - 1 {
        let rv = rings_views(es[k].rings@);
        assert(rv[r] == es[k].rings@[r]@);
        lemma_rings_marks_member(rv, es[k].area_code, r, i);
        let j = choose|j: int|
            0 <= j < rings_marks(rv, es[k].area_code).len() && #[trigger] rings_marks(
                rv,
                es[k].area_code,
            )[j] == ring_mark(rv[r], es[k].area_code, i);
        let off = entries_marks(es.drop_last()).len() as int;
        assert(entries_marks(es)[off + j] == ring_mark(es[k].rings@[r]@, es[k].area_code, i));
    } else {
        lemma_entries_marks_member(es.drop_last(), k, r, i);
        let j = choose|j: int|
            0 <= j < entries_marks(es.drop_last()).len() && #[trigger] entries_marks(
                es.drop_last(),
            )[j] == ring_mark(es.drop_last()[k].rings@[r]@, es.drop_last()[k].area_code, i);
        assert(entries_marks(es)[j] == ring_mark(es[k].rings@[r]@, es[k].area_code, i));
    }
}

/// Every position of every ring, in the flat ring list, contributes a
/// mark carrying its two wrap-around neighbours.
pub proof fn lemma_flat_position_mark(es: Seq<AreaRings>, k: int, i: int)
    requires
        0 <= k < entries_ring_views(es).len(),
        0 <= i < entries_ring_views(es)[k].len(),
    ensures
        exists|j: int|
            0 <= j < entries_marks(es).len() && (#[trigger] entries_marks(es)[j]).cur
                == entries_ring_views(es)[k][i] && entries_marks(es)[j].prev
                == entries_ring_views(es)[k][if i == 0 {
                entries_ring_views(es)[k].len() - 1
            } else {
                i - 1
            }] && entries_marks(es)[j].next == entries_ring_views(es)[k][if i
                == entries_ring_views(es)[k].len() - 1 {
                0
            } else {
                i + 1
            }],
    decreases es.len(),
{
    let rv = entries_ring_views(es);
    let ms = entries_marks(es);
    let rvh = entries_ring_views(es.drop_last());
    let msh = entries_marks(es.drop_last());
    if k < rvh.len() {
        lemma_flat_position_mark(es.drop_last(), k, i);
        let j = choose|j: int|
            0 <= j < msh.len() && (#[trigger] msh[j]).cur == rvh[k][i] && msh[j].prev
                == rvh[k][if i == 0 {
                rvh[k].len() - 1
            } else {
                i - 1
            }] && msh[j].next == rvh[k][if i == rvh[k].len() - 1 {
                0
            } else {
                i + 1
            }];
        assert(rv[k] == rvh[k]);
        assert(ms[j] == msh[j]);
    } else {
        let last = es.last();
        let rs = rings_views(last.rings@);
        let r = k - rvh.len();
        assert(rv[k] == rs[r]);
        lemma_rings_marks_member(rs, last.area_code, r, i);
        let j = choose|j: int|
            0 <= j < rings_marks(rs, last.area_code).len() && #[trigger] rings_marks(
                rs,
                last.area_code,
            )[j] == ring_mark(rs[r], last.area_code, i);
        assert(ms[msh.len() + j] == ring_mark(rs[r], last.area_code, i));
    }
}

/// Interior-point law for the retained borders: a ring point whose two
/// ring neighbours differ and which is not a junction has an adjacency
/// set of size exactly two. Cutting guarantees that every point
/// interior to a produced segment of a closed ring is not a junction,
/// so the interior points of every retained border are such points.
pub proof fn lemma_ring_point_adjacency(
    refs: &PointReferences,
    cp: Seq<Point>,
    entries: Seq<AreaRings>,
    k: int,
    r: int,
    i: int,
)
    requires
        refs.wf(),
        refs.marks() == entries_marks(entries),
        forall|q: Point|
            #[trigger] cp.contains(q) <==> refs.spec_has(q) && refs.spec_adjacency_count(q) >= 3,
        0 <= k < entries.len(),
        0 <= r < entries[k].rings@.len(),
        0 <= i < entries[k].rings@[r]@.len(),
        ring_mark(entries[k].rings@[r]@, entries[k].area_code, i).prev != ring_mark(
            entries[k].rings@[r]@,
            entries[k].area_code,
            i,
        ).next,
        !cp.contains(entries[k].rings@[r]@[i]),
    ensures
        refs.spec_has(entries[k].rings@[r]@[i]),
        refs.spec_adjacency_count(entries[k].rings@[r]@[i]) == 2,
{
    lemma_entries_marks_member(entries, k, r, i);
    let j = choose|j: int|
        0 <= j < entries_marks(entries).len() && #[trigger] entries_marks(entries)[j]
            == ring_mark(entries[k].rings@[r]@, entries[k].area_code, i);
    refs.lemma_interior_point_adjacency(cp, entries[k].rings@[r]@[i], j);
}

} // verus!
