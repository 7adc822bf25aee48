//! Vertex interner: deduplicates points into a dense index space.
//!
//! Index 0 is reserved: the buffer is born holding a dummy point whose
//! coordinate bits are a NaN pattern, which no valid geometry can carry
//! (the ingest path rejects NaN), so no meaningful geometry ever
//! receives index 0 and the packed line strips can use 0 as a sentinel.

use vstd::prelude::*;
use std::collections::HashMap;
use crate::point::Point;
use crate::point::lemma_point_key_injective;

verus! {

broadcast use vstd::std_specs::hash::group_hash_axioms;

/// Bit pattern of a quiet NaN; both coordinates of the reserved dummy
/// vertex hold it.
pub const NAN_BITS: u32 = 0x7FC0_0000;

/// The reserved dummy vertex at index 0.
pub open spec fn dummy_point() -> Point {
    Point { lat: NAN_BITS, lon: NAN_BITS }
}

/// A coordinate whose bits encode a finite `f32` (not NaN, not an
/// infinity). All shapefile geometry satisfies this; the dummy does not.
pub open spec fn coord_is_ordinary(bits: u32) -> bool {
    bits & 0x7F80_0000 != 0x7F80_0000
}

/// A point both of whose coordinates are finite.
pub open spec fn point_is_ordinary(p: Point) -> bool {
    coord_is_ordinary(p.lat) && coord_is_ordinary(p.lon)
}

pub proof fn lemma_ordinary_point_is_not_dummy(p: Point)
    requires
        point_is_ordinary(p),
    ensures
        p != dummy_point(),
{
    assert(NAN_BITS & 0x7F80_0000 == 0x7F80_0000) by (bit_vector);
    assert(coord_is_ordinary(p.lat) ==> p.lat != NAN_BITS);
}

/// Deduplicating vertex buffer: a dense array of distinct points and a
/// dictionary from the point's order key back to its index.
pub struct VertexBuffer {
    buffer: Vec<Point>,
    dict: HashMap<u64, usize>,
}

impl VertexBuffer {
    /// The interned points, in insertion order.
    pub closed spec fn points(self) -> Seq<Point> {
        self.buffer@
    }

    /// The dictionary mirrors the buffer exactly: every interned point's
    /// key maps to its (unique) index and nothing else is in the map.
    pub closed spec fn wf(self) -> bool {
        &&& forall|i: int|
            0 <= i < self.buffer@.len() ==> #[trigger] self.dict@.contains_key(
                self.buffer@[i].spec_key(),
            ) && self.dict@[self.buffer@[i].spec_key()] == i
        &&& forall|k: u64|
            #[trigger] self.dict@.contains_key(k) ==> self.dict@[k] < self.buffer@.len()
                && self.buffer@[self.dict@[k] as int].spec_key() == k
        &&& self.buffer@.len() >= 1
        &&& self.buffer@[0] == dummy_point()
    }

    /// Whether `p` has been interned.
    pub open spec fn has(self, p: Point) -> bool {
        exists|i: int| 0 <= i < self.points().len() && self.points()[i] == p
    }

    /// Interned points are pairwise distinct.
    pub proof fn lemma_distinct(self, i: int, j: int)
        requires
            self.wf(),
            0 <= i < self.points().len(),
            0 <= j < self.points().len(),
            i != j,
        ensures
            self.points()[i] != self.points()[j],
    {
        if self.points()[i] == self.points()[j] {
            assert(self.dict@.contains_key(self.buffer@[i].spec_key()));
            assert(self.dict@[self.buffer@[i].spec_key()] == i);
            assert(self.dict@[self.buffer@[j].spec_key()] == j);
        }
    }

    /// A well-formed buffer always holds the dummy, at index 0.
    pub proof fn lemma_wf_dummy(self)
        requires
            self.wf(),
        ensures
            self.points().len() >= 1,
            self.points()[0] == dummy_point(),
    {
    }

    /// A fresh buffer holding only the reserved dummy vertex.
    pub fn new() -> (r: VertexBuffer)
        ensures
            r.wf(),
            r.points() == seq![dummy_point()],
    {
        let mut buffer: Vec<Point> = Vec::new();
        let dummy = Point { lat: NAN_BITS, lon: NAN_BITS };
        buffer.push(dummy);
        let mut dict: HashMap<u64, usize> = HashMap::new();
        dict.insert(dummy.key(), 0);
        let r = VertexBuffer { buffer, dict };
        proof {
            assert(r.buffer@ =~= seq![dummy_point()]);
        }
        r
    }

    /// Returns the index of `p`, interning it at the next free index if
    /// it is new. Calling `insert` twice with the same point returns the
    /// same index, and the index always reads back as `p`.
    pub fn insert(&mut self, p: Point) -> (idx: usize)
        requires
            old(self).wf(),
        ensures
            final(self).wf(),
            idx < final(self).points().len(),
            final(self).points()[idx as int] == p,
            old(self).has(p) ==> final(self).points() == old(self).points(),
            !old(self).has(p) ==> final(self).points() == old(self).points().push(p),
            forall|j: int|
                0 <= j < old(self).points().len() && old(self).points()[j] == p ==> idx == j,
            idx == 0 <==> p == dummy_point(),
    {
        proof {
            assert forall|j: int|
                0 <= j < self.buffer@.len() && self.buffer@[j] == p implies self.dict@.contains_key(
                p.spec_key(),
            ) && self.dict@[p.spec_key()] == j by {}
        }
        let k = p.key();
        let idx = match self.dict.get(&k) {
            Some(index) => {
                let idx = *index;
                proof {
                    lemma_point_key_injective(self.buffer@[idx as int], p);
                }
                idx
            },
            None => {
                let index = self.buffer.len();
                self.buffer.push(p);
                self.dict.insert(k, index);
                proof {
                    assert forall|i: int| 0 <= i < self.buffer@.len() implies #[trigger] self
                        .dict@.contains_key(self.buffer@[i].spec_key()) && self.dict@[self
                        .buffer@[i].spec_key()] == i by {
                        if i < self.buffer@.len() - 1 {
                            lemma_point_key_injective(self.buffer@[i], p);
                        }
                    }
                }
                index
            },
        };
        proof {
            if p == dummy_point() {
                assert(self.buffer@[0] == dummy_point());
            }
            if idx == 0 {
                assert(self.points()[0] == dummy_point());
            }
        }
        idx
    }

    /// Drains the buffer into its underlying array, insertion order kept.
    pub fn into_buffer(self) -> (r: Vec<Point>)
        ensures
            r@ == self.points(),
    {
        self.buffer
    }

    /// Number of interned points (the dummy included).
    pub fn len(&self) -> (r: usize)
        ensures
            r == self.points().len(),
    {
        self.buffer.len()
    }
}

} // verus!
