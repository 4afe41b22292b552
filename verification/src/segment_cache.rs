//! Segment payloads keyed by their four-byte kind tag.
use vstd::prelude::*;

verus! {

/// `a` and `b` hold the same four bytes.
pub fn kind_eq(a: &[u8; 4], b: &[u8; 4]) -> (r: bool)
    ensures
        r == (a@ == b@),
{
    let r = a[0] == b[0] && a[1] == b[1] && a[2] == b[2] && a[3] == b[3];
    proof {
        if r {
            assert(a@ =~= b@);
        } else {
            assert(a@ != b@) by {
                if a@ == b@ {
                    assert(a@[0] == b@[0] && a@[1] == b@[1] && a@[2] == b@[2] && a@[3] == b@[3]);
                }
            }
        }
    }
    r
}

/// Segment payloads keyed by kind, each kind at most once, in the order
/// in which the kinds were first stored.
#[derive(Debug)]
pub struct SegmentCache {
    entries: Vec<([u8; 4], Vec<u8>)>,
}

impl SegmentCache {
    /// The stored kinds, in order.
    pub closed spec fn kinds(&self) -> Seq<Seq<u8>> {
        self.entries@.map_values(|e: ([u8; 4], Vec<u8>)| e.0@)
    }

    /// No kind is stored twice.
    pub closed spec fn wf(&self) -> bool {
        self.kinds().no_duplicates()
    }

    /// Payload by kind.
    pub closed spec fn map(&self) -> Map<Seq<u8>, Seq<u8>> {
        Map::new(
            |k: Seq<u8>| self.kinds().contains(k),
            |k: Seq<u8>| self.entries@[self.kinds().index_of(k)].1@,
        )
    }

    /// Position of `k` in a well-formed cache.
    proof fn lemma_index(&self, i: int)
        requires
            self.wf(),
            0 <= i < self.entries@.len(),
        ensures
            self.kinds().contains(self.entries@[i].0@),
            self.kinds().index_of(self.entries@[i].0@) == i,
            self.map().contains_key(self.entries@[i].0@),
            self.map()[self.entries@[i].0@] == self.entries@[i].1@,
    {
        let k = self.entries@[i].0@;
        assert(self.kinds()[i] == k);
        let j = self.kinds().index_of(k);
        assert(self.kinds()[j] == k);
    }

    /// Number of stored kinds equals the size of the map.
    pub proof fn lemma_len(&self)
        requires
            self.wf(),
        ensures
            self.map().dom().finite(),
            self.map().dom().len() == self.kinds().len(),
    {
        assert(self.map().dom() =~= self.kinds().to_set());
        self.kinds().unique_seq_to_set();
    }

    /// Empty cache.
    pub fn new() -> (r: Self)
        ensures
            r.wf(),
            r.map() == Map::<Seq<u8>, Seq<u8>>::empty(),
            r.kinds().len() == 0,
    {
        let r = SegmentCache { entries: Vec::new() };
        proof {
            assert(r.map() =~= Map::<Seq<u8>, Seq<u8>>::empty());
        }
        r
    }

    /// Index of `kind`, if stored.
    fn find(&self, kind: &[u8; 4]) -> (r: Option<usize>)
        requires
            self.wf(),
        ensures
            r is None <==> !self.map().contains_key(kind@),
            r matches Some(i) ==> i < self.entries@.len() && self.entries@[i as int].0@ == kind@,
    {
        let mut i: usize = 0;
        while i < self.entries.len()
            invariant
                i <= self.entries@.len(),
                forall|j: int| 0 <= j < i ==> self.entries@[j].0@ != kind@,
            decreases self.entries@.len() - i,
        {
            if kind_eq(&self.entries[i].0, kind) {
                proof {
                    assert(self.kinds()[i as int] == kind@);
                }
                return Some(i);
            }
            i = i + 1;
        }
        proof {
            if self.kinds().contains(kind@) {
                let j = self.kinds().index_of(kind@);
                assert(self.kinds()[j] == kind@);
            }
        }
        None
    }

    /// Payload stored for `kind`.
    pub fn get(&self, kind: &[u8; 4]) -> (r: Option<&Vec<u8>>)
        requires
            self.wf(),
        ensures
            r is Some <==> self.map().contains_key(kind@),
            r matches Some(v) ==> v@ == self.map()[kind@],
    {
        match self.find(kind) {
            Some(i) => {
                proof {
                    self.lemma_index(i as int);
                }
                Some(&self.entries[i].1)
            },
            None => None,
        }
    }

    /// Store `data` under `kind`, replacing an earlier payload.
    pub fn insert(&mut self, kind: [u8; 4], data: Vec<u8>)
        requires
            old(self).wf(),
        ensures
            final(self).wf(),
            final(self).map() == old(self).map().insert(kind@, data@),
            old(self).map().contains_key(kind@) ==> final(self).kinds() == old(self).kinds(),
            !old(self).map().contains_key(kind@) ==> final(self).kinds() == old(self).kinds().push(kind@),
    {
        let ghost old_self = *self;
        match self.find(&kind) {
            Some(i) => {
                self.entries.set(i, (kind, data));
                proof {
                    assert(self.kinds() =~= old_self.kinds());
                    assert forall|k: Seq<u8>| #[trigger] self.map().contains_key(k) <==> old_self.map().insert(kind@, data@).contains_key(k) by {}
                    assert forall|k: Seq<u8>| self.map().contains_key(k) implies #[trigger] self.map()[k] == old_self.map().insert(kind@, data@)[k] by {
                        let j = self.kinds().index_of(k);
                        assert(self.kinds()[j] == k);
                        self.lemma_index(j);
                        if k != kind@ {
                            assert(j != i);
                            assert(self.entries@[j] == old_self.entries@[j]);
                            old_self.lemma_index(j);
                        } else {
                            assert(self.kinds()[i as int] == kind@);
                            assert(j == i);
                        }
                    }
                    assert(self.map() =~= old_self.map().insert(kind@, data@));
                }
            },
            None => {
                self.entries.push((kind, data));
                proof {
                    assert(self.kinds() =~= old_self.kinds().push(kind@));
                    assert(!old_self.kinds().contains(kind@));
                    assert forall|k: Seq<u8>| #[trigger] self.map().contains_key(k) <==> old_self.map().insert(kind@, data@).contains_key(k) by {
                        if old_self.kinds().contains(k) {
                            let j = old_self.kinds().index_of(k);
                            assert(old_self.kinds()[j] == k);
                            assert(self.kinds()[j] == k);
                        }
                        if k == kind@ {
                            assert(self.kinds()[old_self.kinds().len() as int] == kind@);
                        }
                        if self.kinds().contains(k) && k != kind@ {
                            let j = self.kinds().index_of(k);
                            assert(self.kinds()[j] == k);
                            assert(j < old_self.kinds().len());
                            assert(old_self.kinds()[j] == k);
                        }
                    }
                    assert forall|k: Seq<u8>| self.map().contains_key(k) implies #[trigger] self.map()[k] == old_self.map().insert(kind@, data@)[k] by {
                        let j = self.kinds().index_of(k);
                        assert(self.kinds()[j] == k);
                        self.lemma_index(j);
                        if k != kind@ {
                            assert(j < old_self.kinds().len());
                            old_self.lemma_index(j);
                        } else {
                            self.lemma_index(self.entries@.len() - 1);
                        }
                    }
                    assert(self.map() =~= old_self.map().insert(kind@, data@));
                }
            },
        }
    }

    /// Remove and return the payload stored for `kind`.
    pub fn remove(&mut self, kind: &[u8; 4]) -> (r: Option<Vec<u8>>)
        requires
            old(self).wf(),
        ensures
            final(self).wf(),
            final(self).map() == old(self).map().remove(kind@),
            r is Some <==> old(self).map().contains_key(kind@),
            r matches Some(v) ==> v@ == old(self).map()[kind@],
    {
        let ghost old_self = *self;
        match self.find(kind) {
            Some(i) => {
                proof {
                    old_self.lemma_index(i as int);
                }
                let (_, v) = self.entries.remove(i);
                proof {
                    let ok = old_self.kinds();
                    assert(self.kinds() =~= ok.subrange(0, i as int) + ok.subrange(i as int + 1, ok.len() as int));
                    assert(self.kinds().no_duplicates()) by {
                        assert forall|a: int, b: int| 0 <= a < self.kinds().len() && 0 <= b < self.kinds().len() && a != b
                            implies self.kinds()[a] != self.kinds()[b] by {
                            let oa = if a < i { a } else { a + 1 };
                            let ob = if b < i { b } else { b + 1 };
                            assert(self.kinds()[a] == ok[oa]);
                            assert(self.kinds()[b] == ok[ob]);
                        }
                    }
                    assert forall|k: Seq<u8>| #[trigger] self.map().contains_key(k) <==> old_self.map().remove(kind@).contains_key(k) by {
                        if self.kinds().contains(k) {
                            let j = self.kinds().index_of(k);
                            assert(self.kinds()[j] == k);
                            let oj = if j < i { j } else { j + 1 };
                            assert(ok[oj] == k);
                            assert(oj != i);
                        }
                        if ok.contains(k) && k != kind@ {
                            let j = ok.index_of(k);
                            assert(ok[j] == k);
                            assert(j != i);
                            let nj = if j < i { j } else { j - 1 };
                            assert(self.kinds()[nj] == k);
                        }
                    }
                    assert forall|k: Seq<u8>| self.map().contains_key(k) implies #[trigger] self.map()[k] == old_self.map().remove(kind@)[k] by {
                        let j = self.kinds().index_of(k);
                        assert(self.kinds()[j] == k);
                        self.lemma_index(j);
                        let oj = if j < i { j } else { j + 1 };
                        assert(self.entries@[j] == old_self.entries@[oj]);
                        old_self.lemma_index(oj);
                    }
                    assert(self.map() =~= old_self.map().remove(kind@));
                }
                Some(v)
            },
            None => {
                proof {
                    assert(self.map() =~= old_self.map().remove(kind@));
                }
                None
            },
        }
    }

    /// Remove every entry.
    pub fn clear(&mut self)
        ensures
            final(self).wf(),
            final(self).map() == Map::<Seq<u8>, Seq<u8>>::empty(),
            final(self).kinds().len() == 0,
    {
        self.entries.clear();
        proof {
            assert(self.map() =~= Map::<Seq<u8>, Seq<u8>>::empty());
        }
    }

    /// Number of stored kinds.
    pub fn len(&self) -> (r: usize)
        requires
            self.wf(),
        ensures
            r == self.map().dom().len(),
            r == self.kinds().len(),
    {
        proof {
            self.lemma_len();
        }
        self.entries.len()
    }

    /// Whether nothing is stored.
    pub fn is_empty(&self) -> (r: bool)
        requires
            self.wf(),
        ensures
            r <==> self.map().dom().len() == 0,
    {
        proof {
            self.lemma_len();
        }
        self.entries.len() == 0
    }

    /// The stored entries, in order.
    pub fn entries(&self) -> (r: &Vec<([u8; 4], Vec<u8>)>)
        ensures
            r@.map_values(|e: ([u8; 4], Vec<u8>)| e.0@) == self.kinds(),
            forall|i: int| 0 <= i < r@.len() ==> self.map().contains_key(#[trigger] r@[i].0@),
            self.wf() ==> forall|i: int| 0 <= i < r@.len() ==> self.map()[#[trigger] r@[i].0@] == r@[i].1@,
            self.wf() ==> forall|i: int, j: int| 0 <= i < r@.len() && 0 <= j < r@.len() && i != j
                ==> (#[trigger] r@[i]).0@ != (#[trigger] r@[j]).0@,
            forall|k: Seq<u8>| #[trigger] self.map().contains_key(k) ==> exists|i: int| 0 <= i < r@.len() && r@[i].0@ == k,
    {
        proof {
            assert forall|i: int| 0 <= i < self.entries@.len() implies self.map().contains_key(#[trigger] self.entries@[i].0@) by {
                assert(self.kinds()[i] == self.entries@[i].0@);
            }
            if self.wf() {
                assert forall|i: int| 0 <= i < self.entries@.len() implies self.map()[#[trigger] self.entries@[i].0@] == self.entries@[i].1@ by {
                    self.lemma_index(i);
                }
                assert forall|i: int, j: int| 0 <= i < self.entries@.len() && 0 <= j < self.entries@.len() && i != j
                    implies (#[trigger] self.entries@[i]).0@ != (#[trigger] self.entries@[j]).0@ by {
                    assert(self.kinds()[i] == self.entries@[i].0@);
                    assert(self.kinds()[j] == self.entries@[j].0@);
                }
            }
            assert forall|k: Seq<u8>| #[trigger] self.map().contains_key(k) implies exists|i: int| 0 <= i < self.entries@.len() && self.entries@[i].0@ == k by {
                let i = self.kinds().index_of(k);
                assert(self.kinds()[i] == k);
            }
        }
        &self.entries
    }
}

} // verus!
