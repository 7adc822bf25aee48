//! Single-flight image cache.
//!
//! A bounded map from request fingerprint to rendered image bytes,
//! together with the set of fingerprints whose render is in flight.
//! A caller first asks to begin: it receives the cached bytes, or the
//! duty to render (first caller), or the instruction to wait (a render
//! for the same fingerprint is already in flight). At most one render
//! per fingerprint is ever in flight; every waiter receives the bytes
//! the one render produced.

use vstd::prelude::*;
use crate::limiter::{vecs_u8_equal, copy_bytes};

verus! {

/// What a caller holding a fingerprint must do.
pub enum BeginOutcome {
    /// The image is cached: respond with these bytes.
    Ready(Vec<u8>),
    /// No render is in flight: this caller must render and `complete`.
    Render,
    /// Another caller is rendering this fingerprint: wait for it.
    Wait,
}

/// One cached image.
pub struct CacheEntry {
    pub fingerprint: Vec<u8>,
    pub image: Vec<u8>,
}

/// The cache state: capacity, cached images in insertion order, and the
/// fingerprints currently being rendered.
pub struct ImageCache {
    capacity: usize,
    entries: Vec<CacheEntry>,
    in_flight: Vec<Vec<u8>>,
}

impl ImageCache {
    pub closed spec fn spec_capacity(self) -> usize {
        self.capacity
    }

    pub closed spec fn entries(self) -> Seq<CacheEntry> {
        self.entries@
    }

    pub closed spec fn flights(self) -> Seq<Vec<u8>> {
        self.in_flight@
    }

    /// Whether a render for `fp` is in flight.
    pub open spec fn spec_in_flight(self, fp: Seq<u8>) -> bool {
        exists|i: int| 0 <= i < self.flights().len() && (#[trigger] self.flights()[i])@ == fp
    }

    /// The cached image for `fp`, if any.
    pub open spec fn spec_cached(self, fp: Seq<u8>) -> Option<Seq<u8>> {
        if exists|i: int|
            0 <= i < self.entries().len() && (#[trigger] self.entries()[i]).fingerprint@ == fp {
            let i = choose|i: int|
                0 <= i < self.entries().len() && (#[trigger] self.entries()[i]).fingerprint@
                    == fp;
            Some(self.entries()[i].image@)
        } else {
            None
        }
    }

    /// One entry per fingerprint, one flight per fingerprint, and the
    /// capacity bound holds.
    pub closed spec fn wf(self) -> bool {
        &&& forall|i: int, j: int|
            0 <= i < j < self.entries@.len() ==> (#[trigger] self.entries@[i]).fingerprint@ != (
            #[trigger] self.entries@[j]).fingerprint@
        &&& forall|i: int, j: int|
            0 <= i < j < self.in_flight@.len() ==> (#[trigger] self.in_flight@[i])@ != (
            #[trigger] self.in_flight@[j])@
        &&& self.entries@.len() <= self.capacity
    }

    pub fn new(capacity: usize) -> (r: ImageCache)
        ensures
            r.wf(),
            r.spec_capacity() == capacity,
            r.entries().len() == 0,
            r.flights().len() == 0,
    {
        ImageCache { capacity, entries: Vec::new(), in_flight: Vec::new() }
    }

    /// Looks up the cached image for `fp`.
    fn find_entry(&self, fp: &Vec<u8>) -> (r: Option<usize>)
        requires
            self.wf(),
        ensures
            match r {
                Some(i) => i < self.entries().len() && self.entries()[i as int].fingerprint@
                    == fp@ && self.spec_cached(fp@) == Some(self.entries()[i as int].image@),
                None => self.spec_cached(fp@) is None,
            },
    {
        let mut i: usize = 0;
        while i < self.entries.len()
            invariant
                self.wf(),
                i <= self.entries@.len(),
                forall|j: int| 0 <= j < i ==> (#[trigger] self.entries@[j]).fingerprint@ != fp@,
            decreases self.entries@.len() - i,
        {
            if vecs_u8_equal(&self.entries[i].fingerprint, fp) {
                proof {
                    let w = choose|w: int|
                        0 <= w < self.entries().len() && (#[trigger] self.entries()[
                            w
                        ]).fingerprint@ == fp@;
                    if w != i {
                        assert(self.entries()[w].fingerprint@ == self.entries()[
                            i as int
                        ].fingerprint@);
                    }
                }
                return Some(i);
            }
            i += 1;
        }
        None
    }

    /// Whether an image for `fp` is cached.
    pub fn is_cached(&self, fp: &Vec<u8>) -> (r: bool)
        requires
            self.wf(),
        ensures
            r <==> self.spec_cached(fp@) is Some,
    {
        self.find_entry(fp).is_some()
    }

    /// Opens a request for `fp`: the cached bytes if present; otherwise
    /// the duty to render if no render is in flight (and then one is);
    /// otherwise the instruction to wait. A second `begin` for the same
    /// fingerprint, before `complete`, never receives `Render` again.
    pub fn begin(&mut self, fp: &Vec<u8>) -> (r: BeginOutcome)
        requires
            old(self).wf(),
        ensures
            final(self).wf(),
            final(self).spec_capacity() == old(self).spec_capacity(),
            final(self).entries() == old(self).entries(),
            match r {
                BeginOutcome::Ready(img) => old(self).spec_cached(fp@) == Some(img@)
                    && final(self).flights() == old(self).flights(),
                BeginOutcome::Render => old(self).spec_cached(fp@) is None
                    && !old(self).spec_in_flight(fp@) && final(self).spec_in_flight(fp@),
                BeginOutcome::Wait => old(self).spec_cached(fp@) is None
                    && old(self).spec_in_flight(fp@) && final(self).flights() == old(
                    self,
                ).flights(),
            },
    {
        match self.find_entry(fp) {
            Some(i) => {
                proof {
                    assert(self.spec_cached(fp@) == Some(self.entries()[i as int].image@));
                }
                let img = copy_bytes(&self.entries[i].image);
                proof {
                    assert(img@ == self.entries()[i as int].image@);
                }
                BeginOutcome::Ready(img)
            },
            None => {
                let mut i: usize = 0;
                let n = self.in_flight.len();
                while i < n
                    invariant
                        *self == *old(self),
                        self.wf(),
                        self.spec_cached(fp@) is None,
                        n == self.in_flight@.len(),
                        i <= n,
                        forall|j: int| 0 <= j < i ==> (#[trigger] self.in_flight@[j])@ != fp@,
                    decreases n - i,
                {
                    if vecs_u8_equal(&self.in_flight[i], fp) {
                        proof {
                            assert(0 <= i < self.flights().len() && (self.flights()[
                                i as int
                            ])@ == fp@);
                            assert(self.spec_in_flight(fp@));
                        }
                        return BeginOutcome::Wait;
                    }
                    i += 1;
                }
                let ghost before = self.in_flight@;
                self.in_flight.push(copy_bytes(fp));
                proof {
                    let m = self.in_flight@.len() - 1;
                    assert((self.in_flight@[m])@ == fp@);
                    assert(0 <= m < self.flights().len() && (self.flights()[m])@ == fp@);
                    assert(self.spec_in_flight(fp@));
                    assert forall|i2: int, j2: int|
                        0 <= i2 < j2 < self.in_flight@.len() implies (
                    #[trigger] self.in_flight@[i2])@ != (#[trigger] self.in_flight@[j2])@ by {
                        if j2 < m {
                            assert(before[i2]@ != before[j2]@);
                        } else {
                            assert((self.in_flight@[i2])@ != fp@);
                        }
                    }
                }
                BeginOutcome::Render
            },
        }
    }

    /// Records the rendered bytes for `fp` and closes its flight. The
    /// image is cached (evicting the oldest entry when the cache is
    /// full), so every waiter now receives exactly these bytes.
    pub fn complete(&mut self, fp: &Vec<u8>, image: Vec<u8>)
        requires
            old(self).wf(),
            old(self).spec_cached(fp@) is None,
            old(self).spec_capacity() >= 1,
        ensures
            final(self).wf(),
            final(self).spec_capacity() == old(self).spec_capacity(),
            final(self).spec_cached(fp@) == Some(image@),
            !final(self).spec_in_flight(fp@),
    {
        // Close the flight first: drop the entry for `fp`.
        let mut i: usize = 0;
        let mut keep: Vec<Vec<u8>> = Vec::new();
        while i < self.in_flight.len()
            invariant
                *self == *old(self),
                old(self).wf(),
                old(self).spec_cached(fp@) is None,
                old(self).spec_capacity() >= 1,
                i <= self.in_flight@.len(),
                forall|j2: int| 0 <= j2 < keep@.len() ==> (#[trigger] keep@[j2])@ != fp@,
                forall|i2: int, j2: int|
                    0 <= i2 < j2 < keep@.len() ==> (#[trigger] keep@[i2])@ != (
                    #[trigger] keep@[j2])@,
                forall|j2: int|
                    0 <= j2 < keep@.len() ==> exists|w: int|
                        0 <= w < i && (#[trigger] keep@[j2])@ == self.in_flight@[w]@,
            decreases self.in_flight@.len() - i,
        {
            let e = &self.in_flight[i];
            if !vecs_u8_equal(e, fp) {
                let ghost keep0 = keep@;
                let c = copy_bytes(e);
                proof {
                    assert(c@ == self.in_flight@[i as int]@);
                    assert forall|i2: int, j2: int|
                        0 <= i2 < j2 < keep0.push(c).len() implies (#[trigger] keep0.push(c)[i2])@
                            != (#[trigger] keep0.push(c)[j2])@ by {
                        if j2 < keep0.len() {
                        } else {
                            let w = choose|w: int|
                                0 <= w < i && (#[trigger] keep0[i2])@ == self.in_flight@[w]@;
                            assert(self.in_flight@[w]@ != self.in_flight@[i as int]@);
                        }
                    }
                }
                keep.push(c);
            }
            i += 1;
        }
        self.in_flight = keep;
        // Now cache the image, evicting the oldest entry if full.
        let ghost evicted: bool = self.entries@.len() >= self.capacity;
        if self.entries.len() >= self.capacity {
            self.entries.remove(0);
            proof {
                assert forall|i2: int, j2: int|
                    0 <= i2 < j2 < self.entries@.len() implies (
                #[trigger] self.entries@[i2]).fingerprint@ != (
                #[trigger] self.entries@[j2]).fingerprint@ by {
                    assert(old(self).entries()[i2 + 1].fingerprint@ != old(self).entries()[j2
                        + 1].fingerprint@);
                }
            }
        }
        let ghost mid = self.entries@;
        proof {
            assert forall|t: int| 0 <= t < mid.len() implies exists|w: int|
                0 <= w < old(self).entries().len() && #[trigger] mid[t] == old(self).entries()[
                w
            ] by {
                if evicted {
                    assert(mid[t] == old(self).entries()[t + 1]);
                } else {
                    assert(mid[t] == old(self).entries()[t]);
                }
            }
        }
        let entry = CacheEntry { fingerprint: copy_bytes(fp), image };
        self.entries.push(entry);
        proof {
            let m = self.entries@.len() - 1;
            assert forall|i2: int, j2: int|
                0 <= i2 < j2 < self.entries@.len() implies (
            #[trigger] self.entries@[i2]).fingerprint@ != (
            #[trigger] self.entries@[j2]).fingerprint@ by {
                if j2 < m {
                    assert(mid[i2].fingerprint@ != mid[j2].fingerprint@);
                } else {
                    // a cached entry for fp would contradict the requires
                    if (self.entries@[i2]).fingerprint@ == fp@ {
                        assert(self.entries@[i2] == mid[i2]);
                        let w = choose|w: int|
                            0 <= w < old(self).entries().len() && mid[i2] == old(self).entries()[
                            w
                        ];
                        assert(old(self).entries()[w].fingerprint@ == fp@);
                        assert(old(self).spec_cached(fp@) is Some);
                        assert(false);
                    }
                }
            }
            assert((self.entries@[m]).fingerprint@ == fp@);
            let w = choose|w: int|
                0 <= w < self.entries().len() && (#[trigger] self.entries()[w]).fingerprint@
                    == fp@;
            if w != m {
                assert(self.entries()[w].fingerprint@ == self.entries()[m].fingerprint@);
                assert(false);
            }
        }
    }
}

} // verus!
