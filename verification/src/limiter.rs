//! Per-fingerprint response pacing.
//!
//! For every request fingerprint the limiter remembers the instant the
//! next response may be sent. Scheduling a response either grants "now"
//! (no live entry, or the previous grant plus the interval has already
//! passed) or the previous grant plus the interval, so bursts of
//! identical requests are answered at least one interval apart while
//! distinct fingerprints never wait for each other. Instants are
//! nanosecond counts supplied by the caller; entries expire after a
//! time-to-live, as the backing cache of the original service evicts.

use vstd::prelude::*;

verus! {

/// Entry lifetime in nanoseconds: a fingerprint not scheduled for this
/// long is forgotten.
pub const ENTRY_TTL_NANOS: u64 = 5_000_000_000;

/// When an entry recorded at instant `now` lapses.
pub open spec fn spec_entry_expiry(now: u64) -> u64 {
    if now <= u64::MAX - ENTRY_TTL_NANOS {
        (now + ENTRY_TTL_NANOS) as u64
    } else {
        u64::MAX
    }
}

/// What `schedule` grants, given the live previous grant (if any), the
/// current instant and the minimum response interval.
pub open spec fn spec_schedule(prior: Option<u64>, now: u64, interval: u64) -> u64 {
    match prior {
        None => now,
        Some(p) => if p + interval < now {
            now
        } else if p + interval > u64::MAX {
            u64::MAX
        } else {
            (p + interval) as u64
        },
    }
}

/// One pacing entry: the fingerprint, the granted instant, and when the
/// entry lapses.
pub struct PaceEntry {
    pub fingerprint: Vec<u8>,
    pub granted_at: u64,
    pub expires_at: u64,
}

/// The pacing table: a minimum response interval and the live grants,
/// one entry per fingerprint.
pub struct ResponseRateLimiter {
    minimum_response_interval: u64,
    last_respond_ats: Vec<PaceEntry>,
}

impl ResponseRateLimiter {
    pub closed spec fn interval(self) -> u64 {
        self.minimum_response_interval
    }

    pub closed spec fn entries(self) -> Seq<PaceEntry> {
        self.last_respond_ats@
    }

    /// At most one entry per fingerprint.
    pub closed spec fn wf(self) -> bool {
        forall|i: int, j: int|
            0 <= i < j < self.last_respond_ats@.len()
                ==> (#[trigger] self.last_respond_ats@[i]).fingerprint@ != (
            #[trigger] self.last_respond_ats@[j]).fingerprint@
    }

    /// The live grant recorded for a fingerprint at instant `now`:
    /// an entry that has lapsed counts as absent.
    pub open spec fn spec_prior(self, fp: Seq<u8>, now: u64) -> Option<u64> {
        if exists|i: int|
            0 <= i < self.entries().len() && (#[trigger] self.entries()[i]).fingerprint@ == fp
                && now <= self.entries()[i].expires_at {
            let i = choose|i: int|
                0 <= i < self.entries().len() && (#[trigger] self.entries()[i]).fingerprint@ == fp
                    && now <= self.entries()[i].expires_at;
            Some(self.entries()[i].granted_at)
        } else {
            None
        }
    }

    /// With one entry per fingerprint, the live grant for a fingerprint
    /// is read off its one entry.
    proof fn lemma_prior_unique(self, fp: Seq<u8>, at: u64, w: int)
        requires
            self.wf(),
            0 <= w < self.entries().len(),
            (self.entries()[w]).fingerprint@ == fp,
        ensures
            self.spec_prior(fp, at) == if at <= self.entries()[w].expires_at {
                Some(self.entries()[w].granted_at)
            } else {
                None::<u64>
            },
    {
        if at <= self.entries()[w].expires_at {
            assert(0 <= w < self.entries().len() && (self.entries()[w]).fingerprint@ == fp && at
                <= self.entries()[w].expires_at);
            let w2 = choose|w2: int|
                0 <= w2 < self.entries().len() && (#[trigger] self.entries()[w2]).fingerprint@
                    == fp && at <= self.entries()[w2].expires_at;
            if w2 != w {
                assert(self.entries()[w2].fingerprint@ == self.entries()[w].fingerprint@);
                assert(false);
            }
        } else {
            if self.spec_prior(fp, at) is Some {
                let w2 = choose|w2: int|
                    0 <= w2 < self.entries().len() && (#[trigger] self.entries()[w2]).fingerprint@
                        == fp && at <= self.entries()[w2].expires_at;
                if w2 != w {
                    assert(self.entries()[w2].fingerprint@ == self.entries()[w].fingerprint@);
                }
                assert(false);
            }
        }
    }

    /// A fingerprint with no entry at all has no live grant.
    proof fn lemma_prior_absent(self, fp: Seq<u8>, at: u64)
        requires
            forall|i: int|
                0 <= i < self.entries().len() ==> (#[trigger] self.entries()[i]).fingerprint@
                    != fp,
        ensures
            self.spec_prior(fp, at) is None,
    {
        if self.spec_prior(fp, at) is Some {
            let w2 = choose|w2: int|
                0 <= w2 < self.entries().len() && (#[trigger] self.entries()[w2]).fingerprint@
                    == fp && at <= self.entries()[w2].expires_at;
            assert(false);
        }
    }

    pub fn new(minimum_response_interval: u64) -> (r: ResponseRateLimiter)
        ensures
            r.wf(),
            r.interval() == minimum_response_interval,
            r.entries().len() == 0,
    {
        ResponseRateLimiter { minimum_response_interval, last_respond_ats: Vec::new() }
    }

    /// Grants a response instant for `sha1` at instant `now`: the prior
    /// live grant plus the interval, unless that has already passed (or
    /// no grant is live), in which case `now`. The grant is recorded and
    /// stays the live grant until its lifetime lapses, so two grants for
    /// one fingerprint within the pacing window always lie at least one
    /// interval apart. Pacing is strictly per fingerprint: entries of
    /// every other fingerprint are untouched.
    pub fn schedule(&mut self, sha1: &Vec<u8>, now: u64) -> (r: u64)
        requires
            old(self).wf(),
        ensures
            final(self).wf(),
            final(self).interval() == old(self).interval(),
            r == spec_schedule(old(self).spec_prior(sha1@, now), now, old(self).interval()),
            r >= now,
            forall|later: u64|
                later <= spec_entry_expiry(now) ==> #[trigger] final(self).spec_prior(
                    sha1@,
                    later,
                ) == Some(r),
            final(self).spec_prior(sha1@, now) == Some(r),
            forall|fp2: Seq<u8>, at: u64|
                fp2 != sha1@ ==> #[trigger] final(self).spec_prior(fp2, at) == old(
                    self,
                ).spec_prior(fp2, at),
    {
        let ghost pre = *self;
        let n = self.last_respond_ats.len();
        let mut i: usize = 0;
        let mut found: Option<usize> = None;
        while i < n
            invariant
                n == self.last_respond_ats@.len(),
                i <= n,
                *self == pre,
                match found {
                    Some(w) => w < n && self.last_respond_ats@[w as int].fingerprint@ == sha1@,
                    None => forall|w: int|
                        0 <= w < i ==> (#[trigger] self.last_respond_ats@[w]).fingerprint@
                            != sha1@,
                },
            decreases n - i,
        {
            if found.is_none() {
                let e = &self.last_respond_ats[i];
                if vecs_u8_equal(&e.fingerprint, sha1) {
                    found = Some(i);
                }
            }
            i += 1;
        }
        let prior: Option<u64> = match found {
            Some(w) => {
                let e = &self.last_respond_ats[w];
                if now <= e.expires_at {
                    Some(e.granted_at)
                } else {
                    None
                }
            },
            None => None,
        };
        proof {
            match found {
                Some(w) => {
                    if now <= pre.entries()[w as int].expires_at {
                        assert(pre.spec_prior(sha1@, now) is Some);
                        let w2 = choose|w2: int|
                            0 <= w2 < pre.entries().len() && (#[trigger] pre.entries()[
                                w2
                            ]).fingerprint@ == sha1@ && now <= pre.entries()[w2].expires_at;
                        if w2 != w {
                            assert(pre.entries()[w2].fingerprint@ == pre.entries()[
                                w as int
                            ].fingerprint@);
                        }
                        assert(prior == pre.spec_prior(sha1@, now));
                    } else {
                        if pre.spec_prior(sha1@, now) is Some {
                            let w2 = choose|w2: int|
                                0 <= w2 < pre.entries().len() && (#[trigger] pre.entries()[
                                    w2
                                ]).fingerprint@ == sha1@ && now <= pre.entries()[w2].expires_at;
                            if w2 != w {
                                assert(pre.entries()[w2].fingerprint@ == pre.entries()[
                                    w as int
                                ].fingerprint@);
                            }
                            assert(false);
                        }
                    }
                },
                None => {
                    if pre.spec_prior(sha1@, now) is Some {
                        let w2 = choose|w2: int|
                            0 <= w2 < pre.entries().len() && (#[trigger] pre.entries()[
                                w2
                            ]).fingerprint@ == sha1@ && now <= pre.entries()[w2].expires_at;
                        assert(false);
                    }
                },
            }
        }
        let granted: u64 = match prior {
            Some(p) => {
                if p <= u64::MAX - self.minimum_response_interval {
                    let bound = p + self.minimum_response_interval;
                    if bound < now {
                        now
                    } else {
                        bound
                    }
                } else {
                    u64::MAX
                }
            },
            None => now,
        };
        let entry = PaceEntry {
            fingerprint: copy_bytes(sha1),
            granted_at: granted,
            expires_at: if now <= u64::MAX - ENTRY_TTL_NANOS {
                now + ENTRY_TTL_NANOS
            } else {
                u64::MAX
            },
        };
        match found {
            Some(w) => {
                let ghost before = self.last_respond_ats@;
                let slot = &mut self.last_respond_ats[w];
                *slot = entry;
                proof {
                    assert(self.last_respond_ats@ =~= before.update(w as int, entry));
                    assert forall|i2: int, j2: int|
                        0 <= i2 < j2 < self.last_respond_ats@.len() implies (
                    #[trigger] self.last_respond_ats@[i2]).fingerprint@ != (
                    #[trigger] self.last_respond_ats@[j2]).fingerprint@ by {
                        assert(pre.entries()[i2].fingerprint@ != pre.entries()[j2].fingerprint@);
                        if i2 == w {
                            if pre.entries()[j2].fingerprint@ == sha1@ {
                                assert(pre.entries()[w as int].fingerprint@ == sha1@);
                            }
                        } else if j2 == w {
                            if pre.entries()[i2].fingerprint@ == sha1@ {
                                assert(pre.entries()[w as int].fingerprint@ == sha1@);
                            }
                        }
                    }
                    assert((self.entries()[w as int]).fingerprint@ == sha1@);
                    assert forall|later: u64|
                        later <= spec_entry_expiry(now) implies #[trigger] self.spec_prior(
                        sha1@,
                        later,
                    ) == Some(granted) by {
                        self.lemma_prior_unique(sha1@, later, w as int);
                    }
                    assert forall|fp2: Seq<u8>, at: u64|
                        fp2 != sha1@ implies #[trigger] self.spec_prior(fp2, at)
                        == pre.spec_prior(fp2, at) by {
                        if exists|i: int|
                            0 <= i < pre.entries().len() && (#[trigger] pre.entries()[
                                i
                            ]).fingerprint@ == fp2 {
                            let i = choose|i: int|
                                0 <= i < pre.entries().len() && (#[trigger] pre.entries()[
                                    i
                                ]).fingerprint@ == fp2;
                            assert(i != w);
                            assert(self.entries()[i] == pre.entries()[i]);
                            pre.lemma_prior_unique(fp2, at, i);
                            self.lemma_prior_unique(fp2, at, i);
                        } else {
                            pre.lemma_prior_absent(fp2, at);
                            assert forall|i: int|
                                0 <= i < self.entries().len() implies (
                            #[trigger] self.entries()[i]).fingerprint@ != fp2 by {
                                if i != w {
                                    assert(self.entries()[i] == pre.entries()[i]);
                                }
                            }
                            self.lemma_prior_absent(fp2, at);
                        }
                    }
                }
            },
            None => {
                self.last_respond_ats.push(entry);
                proof {
                    let m = self.entries().len() - 1;
                    assert forall|i2: int, j2: int|
                        0 <= i2 < j2 < self.last_respond_ats@.len() implies (
                    #[trigger] self.last_respond_ats@[i2]).fingerprint@ != (
                    #[trigger] self.last_respond_ats@[j2]).fingerprint@ by {
                        if j2 < m {
                            assert(pre.entries()[i2].fingerprint@ != pre.entries()[j2].fingerprint@);
                        } else {
                            assert(self.last_respond_ats@[i2].fingerprint@ != sha1@);
                        }
                    }
                    assert((self.entries()[m]).fingerprint@ == sha1@);
                    assert forall|later: u64|
                        later <= spec_entry_expiry(now) implies #[trigger] self.spec_prior(
                        sha1@,
                        later,
                    ) == Some(granted) by {
                        self.lemma_prior_unique(sha1@, later, m);
                    }
                    assert forall|fp2: Seq<u8>, at: u64|
                        fp2 != sha1@ implies #[trigger] self.spec_prior(fp2, at)
                        == pre.spec_prior(fp2, at) by {
                        if exists|i: int|
                            0 <= i < pre.entries().len() && (#[trigger] pre.entries()[
                                i
                            ]).fingerprint@ == fp2 {
                            let i = choose|i: int|
                                0 <= i < pre.entries().len() && (#[trigger] pre.entries()[
                                    i
                                ]).fingerprint@ == fp2;
                            assert(self.entries()[i] == pre.entries()[i]);
                            pre.lemma_prior_unique(fp2, at, i);
                            self.lemma_prior_unique(fp2, at, i);
                        } else {
                            pre.lemma_prior_absent(fp2, at);
                            assert forall|i: int|
                                0 <= i < self.entries().len() implies (
                            #[trigger] self.entries()[i]).fingerprint@ != fp2 by {
                                if i < m {
                                    assert(self.entries()[i] == pre.entries()[i]);
                                }
                            }
                            self.lemma_prior_absent(fp2, at);
                        }
                    }
                }
            },
        }
        granted
    }
}

/// Byte-wise equality of two byte vectors.
pub fn vecs_u8_equal(a: &Vec<u8>, b: &Vec<u8>) -> (r: bool)
    ensures
        r <==> a@ =~= b@,
{
    if a.len() != b.len() {
        return false;
    }
    let mut i: usize = 0;
    while i < a.len()
        invariant
            a@.len() == b@.len(),
            i <= a@.len(),
            forall|j: int| 0 <= j < i ==> a@[j] == b@[j],
        decreases a@.len() - i,
    {
        if a[i] != b[i] {
            return false;
        }
        i += 1;
    }
    true
}

/// Copies a byte vector.
pub fn copy_bytes(a: &Vec<u8>) -> (r: Vec<u8>)
    ensures
        r@ == a@,
{
    let mut out: Vec<u8> = Vec::new();
    let mut i: usize = 0;
    while i < a.len()
        invariant
            i <= a@.len(),
            out@ =~= a@.subrange(0, i as int),
        decreases a@.len() - i,
    {
        out.push(a[i]);
        i += 1;
    }
    proof {
        assert(out@ =~= a@);
    }
    out
}

/// Pacing law: two grants for the same fingerprint, the second taken at
/// an instant within the pacing window of the first (the first grant is
/// still live and its interval has not yet passed), lie at least one
/// minimum response interval apart. `schedule` keeps its grant the live
/// one for the whole entry lifetime, so its own contract supplies the
/// first hypothesis for any second call inside that lifetime. Grants
/// saturate at the top of the instant range, where the gap claim
/// stops; reaching it would take centuries of nanosecond uptime.
pub proof fn lemma_paced_apart(
    limiter: ResponseRateLimiter,
    fp: Seq<u8>,
    now: u64,
    first: u64,
)
    requires
        limiter.spec_prior(fp, now) == Some(first),
        first + limiter.interval() >= now,
        first + limiter.interval() <= u64::MAX,
    ensures
        spec_schedule(limiter.spec_prior(fp, now), now, limiter.interval()) >= first
            + limiter.interval(),
{
}

} // verus!
