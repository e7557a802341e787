//! The host's record of encoded chunk payloads: each chunk's edit revision,
//! the encodings in flight on the worker pool, and the cache of finished
//! payloads. A payload is served only for the revision it was encoded at.

use vstd::prelude::*;
use crate::planet::ChunkPos;

verus! {

/// What asking for a chunk's wire payload gives.
#[derive(Debug, PartialEq, Eq)]
pub enum EncodeStep {
    /// The payload of the chunk's current revision.
    Ready(Vec<u8>),
    /// Submit an encoding of the chunk at this revision to the workers.
    Request(u64),
    /// An encoding of the current revision is already in flight.
    Pending,
}

/// Revisions, encodings in flight and cached payloads, each keyed by chunk
/// (encodings by chunk and revision).
pub struct EncodedChunks {
    revisions: Vec<(ChunkPos, u64)>,
    encoding: Vec<(ChunkPos, u64)>,
    cache: Vec<(ChunkPos, u64, Vec<u8>)>,
}

/// The revision recorded for `pos` in `revs`, zero when none is.
pub open spec fn rev_in(revs: Seq<(ChunkPos, u64)>, pos: ChunkPos) -> u64
    decreases revs.len(),
{
    if revs.len() == 0 {
        0
    } else if revs.last().0 == pos {
        revs.last().1
    } else {
        rev_in(revs.drop_last(), pos)
    }
}

pub open spec fn keys_distinct(revs: Seq<(ChunkPos, u64)>) -> bool {
    forall|i: int, j: int| 0 <= i < revs.len() && 0 <= j < revs.len() && i != j ==> revs[i].0 != revs[j].0
}

pub open spec fn cache_keys_distinct(c: Seq<(ChunkPos, u64, Vec<u8>)>) -> bool {
    forall|i: int, j: int| 0 <= i < c.len() && 0 <= j < c.len() && i != j ==> c[i].0 != c[j].0
}

proof fn lemma_rev_at(revs: Seq<(ChunkPos, u64)>, i: int)
    requires
        keys_distinct(revs),
        0 <= i < revs.len(),
    ensures
        rev_in(revs, revs[i].0) == revs[i].1,
    decreases revs.len(),
{
    if i < revs.len() - 1 {
        let p = revs.drop_last();
        assert(keys_distinct(p)) by {
            assert forall|a: int, b: int| 0 <= a < p.len() && 0 <= b < p.len() && a != b implies p[a].0 != p[b].0 by {
                assert(p[a] == revs[a] && p[b] == revs[b]);
            }
        }
        assert(revs[revs.len() - 1].0 != revs[i].0);
        assert(p[i] == revs[i]);
        lemma_rev_at(p, i);
    }
}

proof fn lemma_rev_absent(revs: Seq<(ChunkPos, u64)>, pos: ChunkPos)
    requires
        forall|i: int| 0 <= i < revs.len() ==> revs[i].0 != pos,
    ensures
        rev_in(revs, pos) == 0,
    decreases revs.len(),
{
    if revs.len() > 0 {
        let p = revs.drop_last();
        assert(revs[revs.len() - 1].0 != pos);
        assert forall|i: int| 0 <= i < p.len() implies p[i].0 != pos by {
            assert(p[i] == revs[i]);
        }
        lemma_rev_absent(p, pos);
    }
}

impl EncodedChunks {
    /// The revision of `pos`: how many times its payload was invalidated,
    /// wrapping.
    pub closed spec fn spec_revision(&self, pos: ChunkPos) -> u64 {
        rev_in(self.revisions@, pos)
    }

    /// The payload cached for `pos`, with the revision it was encoded at.
    pub closed spec fn spec_cached(&self, pos: ChunkPos) -> Option<(u64, Seq<u8>)> {
        if exists|i: int| 0 <= i < self.cache@.len() && self.cache@[i].0 == pos {
            let i = choose|i: int| 0 <= i < self.cache@.len() && self.cache@[i].0 == pos;
            Some((self.cache@[i].1, self.cache@[i].2@))
        } else {
            None
        }
    }

    /// Whether an encoding of `pos` at `revision` is in flight.
    pub closed spec fn spec_in_flight(&self, pos: ChunkPos, revision: u64) -> bool {
        self.encoding@.contains((pos, revision))
    }

    /// Keys are unique, and every cached payload belongs to its chunk's
    /// current revision: a stale payload is never kept.
    pub closed spec fn wf(&self) -> bool {
        &&& keys_distinct(self.revisions@)
        &&& cache_keys_distinct(self.cache@)
        &&& self.encoding@.no_duplicates()
        &&& forall|i: int| 0 <= i < self.cache@.len() ==> #[trigger] self.cache@[i].1 == rev_in(self.revisions@, self.cache@[i].0)
    }

    /// Every cached payload is of its chunk's current revision.
    pub proof fn lemma_cache_fresh(&self, pos: ChunkPos)
        requires
            self.wf(),
        ensures
            self.spec_cached(pos) matches Some(c) ==> c.0 == self.spec_revision(pos),
    {
    }

    /// Nothing recorded: every chunk at revision zero, nothing cached or in
    /// flight.
    pub fn new() -> (r: EncodedChunks)
        ensures
            r.wf(),
            forall|p: ChunkPos| #[trigger] r.spec_revision(p) == 0 && r.spec_cached(p) is None,
            forall|p: ChunkPos, v: u64| !#[trigger] r.spec_in_flight(p, v),
    {
        EncodedChunks { revisions: Vec::new(), encoding: Vec::new(), cache: Vec::new() }
    }

    fn find_revision(&self, pos: ChunkPos) -> (r: Option<usize>)
        requires
            self.wf(),
        ensures
            match r {
                Some(i) => i < self.revisions@.len() && self.revisions@[i as int].0 == pos,
                None => forall|i: int| 0 <= i < self.revisions@.len() ==> self.revisions@[i].0 != pos,
            },
    {
        let mut i: usize = 0;
        while i < self.revisions.len()
            invariant
                i <= self.revisions@.len(),
                forall|k: int| 0 <= k < i ==> self.revisions@[k].0 != pos,
            decreases self.revisions@.len() - i,
        {
            if self.revisions[i].0 == pos {
                return Some(i);
            }
            i = i + 1;
        }
        None
    }

    fn find_cached(&self, pos: ChunkPos) -> (r: Option<usize>)
        ensures
            match r {
                Some(i) => i < self.cache@.len() && self.cache@[i as int].0 == pos,
                None => forall|i: int| 0 <= i < self.cache@.len() ==> self.cache@[i].0 != pos,
            },
    {
        let mut i: usize = 0;
        while i < self.cache.len()
            invariant
                i <= self.cache@.len(),
                forall|k: int| 0 <= k < i ==> self.cache@[k].0 != pos,
            decreases self.cache@.len() - i,
        {
            if self.cache[i].0 == pos {
                return Some(i);
            }
            i = i + 1;
        }
        None
    }

    /// The current revision of `pos`.
    pub fn revision(&self, pos: ChunkPos) -> (r: u64)
        requires
            self.wf(),
        ensures
            r == self.spec_revision(pos),
    {
        match self.find_revision(pos) {
            Some(i) => {
                proof {
                    lemma_rev_at(self.revisions@, i as int);
                }
                self.revisions[i].1
            },
            None => {
                proof {
                    lemma_rev_absent(self.revisions@, pos);
                }
                0
            },
        }
    }

    proof fn lemma_cached_at(&self, i: int)
        requires
            cache_keys_distinct(self.cache@),
            0 <= i < self.cache@.len(),
        ensures
            self.spec_cached(self.cache@[i].0) == Some((self.cache@[i].1, self.cache@[i].2@)),
    {
        let pos = self.cache@[i].0;
        let k = choose|k: int| 0 <= k < self.cache@.len() && self.cache@[k].0 == pos;
        assert(k == i);
    }

    proof fn lemma_cached_absent(&self, pos: ChunkPos)
        requires
            forall|i: int| 0 <= i < self.cache@.len() ==> self.cache@[i].0 != pos,
        ensures
            self.spec_cached(pos) is None,
    {
    }

    /// A chunk was edited: its revision advances (wrapping) and its cached
    /// payload is dropped. Nothing else changes.
    pub fn invalidate_encoded(&mut self, pos: ChunkPos)
        requires
            old(self).wf(),
        ensures
            final(self).wf(),
            final(self).spec_revision(pos) == (if old(self).spec_revision(pos) == u64::MAX {
                0
            } else {
                (old(self).spec_revision(pos) + 1) as u64
            }),
            final(self).spec_cached(pos) is None,
            forall|q: ChunkPos| q != pos ==> #[trigger] final(self).spec_revision(q) == old(self).spec_revision(q),
            forall|q: ChunkPos| q != pos ==> #[trigger] final(self).spec_cached(q) == old(self).spec_cached(q),
            forall|q: ChunkPos, v: u64| #[trigger] final(self).spec_in_flight(q, v) == old(self).spec_in_flight(q, v),
    {
        let ghost revs0 = self.revisions@;
        let ghost cache0 = self.cache@;
        let ghost before = *self;
        match self.find_revision(pos) {
            Some(i) => {
                proof {
                    lemma_rev_at(revs0, i as int);
                }
                let next = self.revisions[i].1.wrapping_add(1);
                self.revisions.set(i, (pos, next));
            },
            None => {
                proof {
                    lemma_rev_absent(revs0, pos);
                }
                self.revisions.push((pos, 1));
            },
        }
        let ghost revs1 = self.revisions@;
        proof {
            assert(keys_distinct(revs1)) by {
                assert forall|a: int, b: int| 0 <= a < revs1.len() && 0 <= b < revs1.len() && a != b implies revs1[a].0 != revs1[b].0 by {
                    if a < revs0.len() && b < revs0.len() {
                        if revs1[a].0 == pos || revs1[b].0 == pos {
                        }
                    }
                }
            }
            assert forall|q: ChunkPos| q != pos implies rev_in(revs1, q) == rev_in(revs0, q) by {
                if exists|k: int| 0 <= k < revs0.len() && revs0[k].0 == q {
                    let k = choose|k: int| 0 <= k < revs0.len() && revs0[k].0 == q;
                    lemma_rev_at(revs0, k);
                    assert(revs1[k] == revs0[k]);
                    lemma_rev_at(revs1, k);
                } else {
                    lemma_rev_absent(revs0, q);
                    assert forall|k: int| 0 <= k < revs1.len() implies revs1[k].0 != q by {
                        if k < revs0.len() {
                        }
                    }
                    lemma_rev_absent(revs1, q);
                }
            }
            let j = choose|j: int| 0 <= j < revs1.len() && revs1[j].0 == pos;
            assert(exists|j: int| 0 <= j < revs1.len() && revs1[j].0 == pos) by {
                if exists|k: int| 0 <= k < revs0.len() && revs0[k].0 == pos {
                    let k = choose|k: int| 0 <= k < revs0.len() && revs0[k].0 == pos;
                    assert(revs1[k].0 == pos);
                } else {
                    assert(revs1[revs0.len() as int].0 == pos);
                }
            }
            let j2 = choose|j: int| 0 <= j < revs1.len() && revs1[j].0 == pos;
            lemma_rev_at(revs1, j2);
        }
        match self.find_cached(pos) {
            Some(i) => {
                let _ = self.cache.remove(i);
            },
            None => {},
        }
        proof {
            let cache1 = self.cache@;
            assert forall|k: int| 0 <= k < cache1.len() implies cache1[k].0 != pos && exists|m: int|
                0 <= m < cache0.len() && cache0[m] == cache1[k] by {
                if cache1.len() < cache0.len() {
                    let i = choose|i: int| 0 <= i < cache0.len() && cache0[i].0 == pos && cache1 == cache0.remove(i);
                    if k < i {
                        assert(cache1[k] == cache0[k]);
                    } else {
                        assert(cache1[k] == cache0[k + 1]);
                    }
                } else {
                    assert(cache1[k] == cache0[k]);
                }
            }
            assert(cache_keys_distinct(cache1)) by {
                assert forall|a: int, b: int| 0 <= a < cache1.len() && 0 <= b < cache1.len() && a != b implies cache1[a].0 != cache1[b].0 by {
                    if cache1.len() < cache0.len() {
                        let i = choose|i: int| 0 <= i < cache0.len() && cache0[i].0 == pos && cache1 == cache0.remove(i);
                        let ia = if a < i { a } else { a + 1 };
                        let ib = if b < i { b } else { b + 1 };
                        assert(cache1[a] == cache0[ia] && cache1[b] == cache0[ib]);
                    }
                }
            }
            self.lemma_cached_absent(pos);
            assert forall|q: ChunkPos| q != pos implies #[trigger] self.spec_cached(q) == before.spec_cached(q) by {
                if exists|m: int| 0 <= m < cache0.len() && cache0[m].0 == q {
                    let m = choose|m: int| 0 <= m < cache0.len() && cache0[m].0 == q;
                    before.lemma_cached_at(m);
                    let k = if cache1.len() < cache0.len() {
                        let i = choose|i: int| 0 <= i < cache0.len() && cache0[i].0 == pos && cache1 == cache0.remove(i);
                        if m < i { m } else { m - 1 }
                    } else {
                        m
                    };
                    assert(cache1[k] == cache0[m]);
                    self.lemma_cached_at(k);
                } else {
                    assert forall|k: int| 0 <= k < cache1.len() implies cache1[k].0 != q by {
                        let m = choose|m: int| 0 <= m < cache0.len() && cache0[m] == cache1[k];
                    }
                    self.lemma_cached_absent(q);
                }
            }
            assert forall|k: int| 0 <= k < cache1.len() implies #[trigger] cache1[k].1 == rev_in(revs1, cache1[k].0) by {
                let m = choose|m: int| 0 <= m < cache0.len() && cache0[m] == cache1[k];
                assert(cache0[m].1 == rev_in(revs0, cache0[m].0));
            }
        }
    }

    fn in_flight(&self, pos: ChunkPos, revision: u64) -> (r: bool)
        ensures
            r == self.spec_in_flight(pos, revision),
    {
        let mut i: usize = 0;
        while i < self.encoding.len()
            invariant
                i <= self.encoding@.len(),
                forall|k: int| 0 <= k < i ==> self.encoding@[k] != (pos, revision),
            decreases self.encoding@.len() - i,
        {
            if self.encoding[i].0 == pos && self.encoding[i].1 == revision {
                assert(self.encoding@[i as int] == (pos, revision));
                return true;
            }
            i = i + 1;
        }
        false
    }

    /// Ask for the payload of `pos`: the cached one, or a claim to encode
    /// its current revision, or a wait while that encoding is in flight.
    /// Only a claim changes anything: it marks the encoding in flight.
    pub fn encoded_or_claim(&mut self, pos: ChunkPos) -> (r: EncodeStep)
        requires
            old(self).wf(),
        ensures
            final(self).wf(),
            match old(self).spec_cached(pos) {
                Some(c) => r matches EncodeStep::Ready(p) && p@ == c.1,
                None => if old(self).spec_in_flight(pos, old(self).spec_revision(pos)) {
                    r is Pending
                } else {
                    r == EncodeStep::Request(old(self).spec_revision(pos))
                },
            },
            forall|q: ChunkPos| #[trigger] final(self).spec_revision(q) == old(self).spec_revision(q),
            forall|q: ChunkPos| #[trigger] final(self).spec_cached(q) == old(self).spec_cached(q),
            forall|q: ChunkPos, v: u64| #[trigger] final(self).spec_in_flight(q, v) == (old(self).spec_in_flight(q, v)
                || (r is Request && q == pos && v == old(self).spec_revision(pos))),
    {
        let revision = self.revision(pos);
        match self.find_cached(pos) {
            Some(i) => {
                proof {
                    self.lemma_cached_at(i as int);
                }
                let mut payload: Vec<u8> = Vec::new();
                let mut k: usize = 0;
                while k < self.cache[i].2.len()
                    invariant
                        i < self.cache@.len(),
                        k <= self.cache@[i as int].2@.len(),
                        payload@ == self.cache@[i as int].2@.take(k as int),
                    decreases self.cache@[i as int].2@.len() - k,
                {
                    payload.push(self.cache[i].2[k]);
                    assert(self.cache@[i as int].2@.take(k + 1) =~= self.cache@[i as int].2@.take(k as int).push(
                        self.cache@[i as int].2@[k as int],
                    ));
                    k = k + 1;
                }
                assert(self.cache@[i as int].2@.take(k as int) =~= self.cache@[i as int].2@);
                EncodeStep::Ready(payload)
            },
            None => {
                proof {
                    self.lemma_cached_absent(pos);
                }
                if self.in_flight(pos, revision) {
                    EncodeStep::Pending
                } else {
                    let ghost before = *self;
                    self.encoding.push((pos, revision));
                    proof {
                        assert(self.encoding@.no_duplicates()) by {
                            assert forall|a: int, b: int| 0 <= a < b < self.encoding@.len() implies self.encoding@[a]
                                != self.encoding@[b] by {
                                if b == self.encoding@.len() - 1 {
                                    assert(before.encoding@[a] == self.encoding@[a]);
                                    assert(!before.encoding@.contains((pos, revision)));
                                    assert(before.encoding@.contains(before.encoding@[a]));
                                }
                            }
                        }
                        assert forall|q: ChunkPos, v: u64| #[trigger] self.spec_in_flight(q, v) == (before.spec_in_flight(q, v)
                            || (q == pos && v == revision)) by {
                            if before.encoding@.contains((q, v)) {
                                let m = choose|m: int| 0 <= m < before.encoding@.len() && before.encoding@[m] == (q, v);
                                assert(self.encoding@[m] == (q, v));
                            }
                            if q == pos && v == revision {
                                assert(self.encoding@[before.encoding@.len() as int] == (q, v));
                            }
                            if self.encoding@.contains((q, v)) {
                                let m = choose|m: int| 0 <= m < self.encoding@.len() && self.encoding@[m] == (q, v);
                                if m < before.encoding@.len() {
                                    assert(before.encoding@[m] == (q, v));
                                }
                            }
                        }
                    }
                    EncodeStep::Request(revision)
                }
            },
        }
    }

    /// The encoding of `pos` at `revision` is no longer in flight (its
    /// request was refused or cancelled). Nothing else changes.
    pub fn release(&mut self, pos: ChunkPos, revision: u64)
        requires
            old(self).wf(),
        ensures
            final(self).wf(),
            forall|q: ChunkPos| #[trigger] final(self).spec_revision(q) == old(self).spec_revision(q),
            forall|q: ChunkPos| #[trigger] final(self).spec_cached(q) == old(self).spec_cached(q),
            forall|q: ChunkPos, v: u64| #[trigger] final(self).spec_in_flight(q, v) == (old(self).spec_in_flight(q, v)
                && !(q == pos && v == revision)),
    {
        let ghost before = *self;
        let mut i: usize = 0;
        while i < self.encoding.len()
            invariant
                *self == before,
                before == *old(self),
                before.wf(),
                i <= self.encoding@.len(),
                forall|k: int| 0 <= k < i ==> self.encoding@[k] != (pos, revision),
            decreases self.encoding@.len() - i,
        {
            if self.encoding[i].0 == pos && self.encoding[i].1 == revision {
                let _ = self.encoding.remove(i);
                proof {
                    let e0 = before.encoding@;
                    let e1 = self.encoding@;
                    assert(e0[i as int] == (pos, revision));
                    assert(e1 =~= e0.remove(i as int));
                    assert(e1.no_duplicates()) by {
                        assert forall|a: int, b: int| 0 <= a < b < e1.len() implies e1[a] != e1[b] by {
                            let ia = if a < i { a } else { a + 1 };
                            let ib = if b < i { b } else { b + 1 };
                            assert(e1[a] == e0[ia] && e1[b] == e0[ib]);
                        }
                    }
                    assert forall|q: ChunkPos, v: u64| #[trigger] self.spec_in_flight(q, v) == (before.spec_in_flight(q, v)
                        && !(q == pos && v == revision)) by {
                        if e1.contains((q, v)) {
                            let m = choose|m: int| 0 <= m < e1.len() && e1[m] == (q, v);
                            let im = if m < i { m } else { m + 1 };
                            assert(e0[im] == (q, v));
                            if q == pos && v == revision {
                                assert(im != i);
                            }
                        }
                        if e0.contains((q, v)) && !(q == pos && v == revision) {
                            let m = choose|m: int| 0 <= m < e0.len() && e0[m] == (q, v);
                            assert(m != i);
                            if m < i {
                                assert(e1[m] == (q, v));
                            } else {
                                assert(e1[m - 1] == (q, v));
                            }
                        }
                    }
                }
                return;
            }
            i = i + 1;
        }
    }

    /// Forget the cached payload of `pos`, if any. Nothing else changes.
    pub fn forget(&mut self, pos: ChunkPos)
        requires
            old(self).wf(),
        ensures
            final(self).wf(),
            final(self).spec_cached(pos) is None,
            forall|q: ChunkPos| #[trigger] final(self).spec_revision(q) == old(self).spec_revision(q),
            forall|q: ChunkPos| q != pos ==> #[trigger] final(self).spec_cached(q) == old(self).spec_cached(q),
            forall|q: ChunkPos, v: u64| #[trigger] final(self).spec_in_flight(q, v) == old(self).spec_in_flight(q, v),
    {
        let ghost before = *self;
        let ghost cache0 = self.cache@;
        match self.find_cached(pos) {
            Some(i) => {
                let _ = self.cache.remove(i);
                proof {
                    let cache1 = self.cache@;
                    assert(cache1 =~= cache0.remove(i as int));
                    assert forall|k: int| 0 <= k < cache1.len() implies cache1[k] == cache0[if k < i { k } else { k + 1 }] by {}
                    assert forall|k: int| 0 <= k < cache1.len() implies cache1[k].0 != pos by {
                        let ik = if k < i { k } else { k + 1 };
                        assert(cache1[k] == cache0[ik]);
                    }
                    assert(cache_keys_distinct(cache1)) by {
                        assert forall|a: int, b: int| 0 <= a < cache1.len() && 0 <= b < cache1.len() && a != b implies cache1[a].0
                            != cache1[b].0 by {
                            let ia = if a < i { a } else { a + 1 };
                            let ib = if b < i { b } else { b + 1 };
                            assert(cache1[a] == cache0[ia] && cache1[b] == cache0[ib]);
                        }
                    }
                    assert forall|k: int| 0 <= k < cache1.len() implies #[trigger] cache1[k].1 == rev_in(self.revisions@, cache1[k].0) by {
                        let ik = if k < i { k } else { k + 1 };
                        assert(cache1[k] == cache0[ik]);
                    }
                    self.lemma_cached_absent(pos);
                    assert forall|q: ChunkPos| q != pos implies #[trigger] self.spec_cached(q) == before.spec_cached(q) by {
                        if exists|m: int| 0 <= m < cache0.len() && cache0[m].0 == q {
                            let m = choose|m: int| 0 <= m < cache0.len() && cache0[m].0 == q;
                            before.lemma_cached_at(m);
                            assert(m != i);
                            let k = if m < i { m } else { m - 1 };
                            assert(cache1[k] == cache0[m]);
                            self.lemma_cached_at(k);
                        } else {
                            assert forall|k: int| 0 <= k < cache1.len() implies cache1[k].0 != q by {
                                let ik = if k < i { k } else { k + 1 };
                                assert(cache1[k] == cache0[ik]);
                            }
                            self.lemma_cached_absent(q);
                        }
                    }
                }
            },
            None => {
                proof {
                    self.lemma_cached_absent(pos);
                }
            },
        }
    }

    /// A worker finished encoding `pos` at `revision`: the encoding is no
    /// longer in flight, and the payload is cached when the chunk is still
    /// wanted and still at that revision; a stale payload is dropped.
    pub fn adopt(&mut self, pos: ChunkPos, revision: u64, payload: Vec<u8>, wanted: bool)
        requires
            old(self).wf(),
        ensures
            final(self).wf(),
            final(self).spec_cached(pos) == (if wanted && revision == old(self).spec_revision(pos) {
                Some((revision, payload@))
            } else {
                old(self).spec_cached(pos)
            }),
            forall|q: ChunkPos| #[trigger] final(self).spec_revision(q) == old(self).spec_revision(q),
            forall|q: ChunkPos| q != pos ==> #[trigger] final(self).spec_cached(q) == old(self).spec_cached(q),
            forall|q: ChunkPos, v: u64| #[trigger] final(self).spec_in_flight(q, v) == (old(self).spec_in_flight(q, v)
                && !(q == pos && v == revision)),
    {
        self.release(pos, revision);
        let current = self.revision(pos);
        if wanted && revision == current {
            let ghost mid = *self;
            self.forget(pos);
            let ghost cleared = *self;
            self.cache.push((pos, revision, payload));
            proof {
                let c0 = cleared.cache@;
                let c1 = self.cache@;
                assert forall|k: int| 0 <= k < c0.len() implies c0[k].0 != pos by {
                    if c0[k].0 == pos {
                        cleared.lemma_cached_at(k);
                    }
                }
                assert(cache_keys_distinct(c1)) by {
                    assert forall|a: int, b: int| 0 <= a < c1.len() && 0 <= b < c1.len() && a != b implies c1[a].0 != c1[b].0 by {
                        if a < c0.len() && b < c0.len() {
                            assert(c1[a] == c0[a] && c1[b] == c0[b]);
                        } else if a < c0.len() {
                            assert(c1[a] == c0[a]);
                        } else {
                            assert(c1[b] == c0[b]);
                        }
                    }
                }
                assert(self.revisions@ == cleared.revisions@);
                assert forall|k: int| 0 <= k < c1.len() implies #[trigger] c1[k].1 == rev_in(self.revisions@, c1[k].0) by {
                    if k < c0.len() {
                        assert(c1[k] == c0[k]);
                        assert(cleared.cache@[k].1 == rev_in(cleared.revisions@, cleared.cache@[k].0));
                    } else {
                        assert(cleared.spec_revision(pos) == mid.spec_revision(pos));
                    }
                }
                self.lemma_cached_at(c0.len() as int);
                assert forall|q: ChunkPos| q != pos implies #[trigger] self.spec_cached(q) == cleared.spec_cached(q) by {
                    if exists|m: int| 0 <= m < c0.len() && c0[m].0 == q {
                        let m = choose|m: int| 0 <= m < c0.len() && c0[m].0 == q;
                        cleared.lemma_cached_at(m);
                        assert(c1[m] == c0[m]);
                        self.lemma_cached_at(m);
                    } else {
                        assert forall|k: int| 0 <= k < c1.len() implies c1[k].0 != q by {
                            if k < c0.len() {
                                assert(c1[k] == c0[k]);
                            }
                        }
                        self.lemma_cached_absent(q);
                    }
                }
                assert forall|q: ChunkPos, v: u64| #[trigger] self.spec_in_flight(q, v) == mid.spec_in_flight(q, v) by {
                    assert(cleared.spec_in_flight(q, v) == mid.spec_in_flight(q, v));
                    assert(self.encoding@ == cleared.encoding@);
                }
                assert forall|q: ChunkPos| #[trigger] self.spec_revision(q) == old(self).spec_revision(q) by {
                    assert(cleared.spec_revision(q) == mid.spec_revision(q));
                    assert(mid.spec_revision(q) == old(self).spec_revision(q));
                }
                assert forall|q: ChunkPos| q != pos implies #[trigger] self.spec_cached(q) == old(self).spec_cached(q) by {
                    assert(self.spec_cached(q) == cleared.spec_cached(q));
                    assert(cleared.spec_cached(q) == mid.spec_cached(q));
                    assert(mid.spec_cached(q) == old(self).spec_cached(q));
                }
            }
        }
    }
}

} // verus!
