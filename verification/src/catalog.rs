//! Path-keyed catalog of active and soft-deleted inodes.
//!
//! Each list is kept sorted by the byte order of the paths with at most one
//! inode per path, so listings come out in path order.
use vstd::prelude::*;
use vstd::utf8::{encode_utf8, encode_utf8_decode_utf8};
use vstd::string::StringSliceAdditionalSpecFns;
use crate::domain::{Inode, InodeId, InodeKind};
use crate::order::{bytes_lt, bytes_less, lemma_lt_irreflexive, lemma_lt_transitive, lemma_lt_total};
use crate::ondisk::codec::bytes_eq;

verus! {

/// Lookup key of an inode: the UTF-8 bytes of its path.
pub open spec fn ikey(i: Inode) -> Seq<u8> {
    encode_utf8(i.path@)
}

/// Entries are strictly increasing by key (so keys are unique).
pub open spec fn sorted_unique(s: Seq<Inode>) -> bool {
    forall|i: int, j: int| 0 <= i < j < s.len() ==> bytes_lt(#[trigger] ikey(s[i]), #[trigger] ikey(s[j]))
}

/// Some entry has key `k`.
pub open spec fn has_key(s: Seq<Inode>, k: Seq<u8>) -> bool {
    exists|i: int| 0 <= i < s.len() && #[trigger] ikey(s[i]) == k
}

/// The entry with key `k`, if any.
pub open spec fn lookup(s: Seq<Inode>, k: Seq<u8>) -> Option<Inode> {
    if has_key(s, k) {
        Some(s[choose|i: int| 0 <= i < s.len() && #[trigger] ikey(s[i]) == k])
    } else {
        None
    }
}

/// The last inode of `v` with key `k` (later entries replace earlier ones).
pub open spec fn last_with_key(v: Seq<Inode>, k: Seq<u8>) -> Option<Inode>
    decreases v.len(),
{
    if v.len() == 0 {
        None
    } else if ikey(v.last()) == k {
        Some(v.last())
    } else {
        last_with_key(v.drop_last(), k)
    }
}

/// Number of non-directory entries among the first `n`.
pub open spec fn file_count(s: Seq<Inode>, n: int) -> int
    decreases n,
{
    if n <= 0 {
        0
    } else {
        file_count(s, n - 1) + if s[n - 1].kind != InodeKind::Directory { 1int } else { 0int }
    }
}

/// Total size of the non-directory entries among the first `n`.
pub open spec fn file_bytes(s: Seq<Inode>, n: int) -> int
    decreases n,
{
    if n <= 0 {
        0
    } else {
        file_bytes(s, n - 1) + if s[n - 1].kind != InodeKind::Directory { s[n - 1].size as int } else { 0int }
    }
}

/// Sum of the sizes of the entries of `s`.
pub open spec fn sizes_sum(s: Seq<Inode>) -> int
    decreases s.len(),
{
    if s.len() == 0 { 0 } else { sizes_sum(s.drop_last()) + s.last().size as int }
}

/// The entries that are not directories.
pub open spec fn non_directories(s: Seq<Inode>) -> Seq<Inode> {
    s.filter(|i: Inode| i.kind != InodeKind::Directory)
}

/// The quota counts only what is not a directory: the file count of the
/// first `n` entries is the number of them that are not directories, and
/// the byte total is the sum of those entries' sizes (a directory adds
/// neither a file nor bytes).
pub proof fn lemma_quota_counts_non_directories(s: Seq<Inode>, n: int)
    requires
        0 <= n <= s.len(),
    ensures
        file_count(s, n) == non_directories(s.take(n)).len(),
        file_bytes(s, n) == sizes_sum(non_directories(s.take(n))),
    decreases n,
{
    reveal_with_fuel(Seq::filter, 2);
    if n == 0 {
        assert(s.take(0) =~= Seq::<Inode>::empty());
    } else {
        lemma_quota_counts_non_directories(s, n - 1);
        let t = s.take(n);
        assert(t.drop_last() =~= s.take(n - 1));
        assert(t.last() == s[n - 1]);
        let f = non_directories(t.drop_last());
        if s[n - 1].kind != InodeKind::Directory {
            assert(non_directories(t) == f.push(s[n - 1]));
            assert(f.push(s[n - 1]).drop_last() =~= f);
        } else {
            assert(non_directories(t) == f);
        }
    }
}

proof fn lemma_file_count_bound(s: Seq<Inode>, n: int)
    requires
        0 <= n,
    ensures
        0 <= file_count(s, n) <= n,
        0 <= file_bytes(s, n),
    decreases n,
{
    if n > 0 {
        lemma_file_count_bound(s, n - 1);
    }
}

proof fn lemma_file_bytes_mono(s: Seq<Inode>, m: int, n: int)
    requires
        0 <= m <= n,
    ensures
        file_bytes(s, m) <= file_bytes(s, n),
    decreases n - m,
{
    if m < n {
        lemma_file_bytes_mono(s, m, n - 1);
    }
}

/// In a sorted list the entry with key `k` is the one at index `i`.
proof fn lemma_lookup_at(s: Seq<Inode>, i: int)
    requires
        sorted_unique(s),
        0 <= i < s.len(),
    ensures
        lookup(s, ikey(s[i])) == Some(s[i]),
{
    let k = ikey(s[i]);
    assert(has_key(s, k));
    let j = choose|j: int| 0 <= j < s.len() && #[trigger] ikey(s[j]) == k;
    if j != i {
        lemma_lt_irreflexive(k);
        if j < i {
            assert(bytes_lt(ikey(s[j]), ikey(s[i])));
        } else {
            assert(bytes_lt(ikey(s[i]), ikey(s[j])));
        }
    }
}

/// Index of the entry with key `key`, if any.
fn find_index(list: &Vec<Inode>, key: &[u8]) -> (r: Option<usize>)
    ensures
        r matches Some(i) ==> i < list@.len() && ikey(list@[i as int]) == key@,
        r is None ==> !has_key(list@, key@),
{
    let mut i: usize = 0;
    while i < list.len()
        invariant
            i <= list@.len(),
            forall|j: int| 0 <= j < i ==> ikey(#[trigger] list@[j]) != key@,
        decreases list@.len() - i,
    {
        let kb = list[i].path.as_str().as_bytes();
        if bytes_eq(kb, key) {
            return Some(i);
        }
        i = i + 1;
    }
    None
}

/// Insert `inode`, replacing the entry with the same key.
fn insert_sorted(list: &mut Vec<Inode>, inode: Inode)
    requires
        sorted_unique(old(list)@),
    ensures
        sorted_unique(final(list)@),
        lookup(final(list)@, ikey(inode)) == Some(inode),
        forall|k: Seq<u8>| k != ikey(inode) ==> #[trigger] lookup(final(list)@, k) == lookup(old(list)@, k),
{
    let key_vec = copy_key(&inode);
    let ghost k = ikey(inode);
    let ghost old_list = list@;
    match find_index(list, key_vec.as_slice()) {
        Some(i) => {
            list.set(i, inode);
            proof {
                let s = list@;
                assert(sorted_unique(s)) by {
                    assert forall|a: int, b: int| 0 <= a < b < s.len() implies bytes_lt(#[trigger] ikey(s[a]), #[trigger] ikey(s[b])) by {
                        assert(ikey(s[a]) == ikey(old_list[a]));
                        assert(ikey(s[b]) == ikey(old_list[b]));
                    }
                }
                lemma_lookup_at(s, i as int);
                assert forall|k2: Seq<u8>| k2 != k implies #[trigger] lookup(s, k2) == lookup(old_list, k2) by {
                    if has_key(old_list, k2) {
                        let j = choose|j: int| 0 <= j < old_list.len() && #[trigger] ikey(old_list[j]) == k2;
                        lemma_lookup_at(old_list, j);
                        lemma_lookup_at(s, j);
                        assert(j != i);
                    } else {
                        if has_key(s, k2) {
                            let j = choose|j: int| 0 <= j < s.len() && #[trigger] ikey(s[j]) == k2;
                            assert(j != i);
                            assert(ikey(old_list[j]) == k2);
                        }
                    }
                }
            }
        },
        None => {
            let mut p: usize = 0;
            let mut found = false;
            while p < list.len() && !found
                invariant
                    list@ == old_list,
                    p <= list@.len(),
                    forall|j: int| 0 <= j < p ==> !bytes_lt(k, #[trigger] ikey(list@[j])),
                    found ==> p < list@.len() && bytes_lt(k, ikey(list@[p as int])),
                    key_vec@ == k,
                decreases list@.len() - p, if found { 0int } else { 1int },
            {
                let kb = list[p].path.as_str().as_bytes();
                if bytes_less(key_vec.as_slice(), kb) {
                    found = true;
                } else {
                    p = p + 1;
                }
            }
            proof {
                assert forall|j: int| 0 <= j < p implies bytes_lt(#[trigger] ikey(old_list[j]), k) by {
                    lemma_lt_total(ikey(old_list[j]), k);
                }
                assert forall|j: int| p <= j < old_list.len() implies bytes_lt(k, #[trigger] ikey(old_list[j])) by {
                    assert(found);
                    if j > p {
                        assert(bytes_lt(ikey(old_list[p as int]), ikey(old_list[j])));
                        lemma_lt_transitive(k, ikey(old_list[p as int]), ikey(old_list[j]));
                    }
                }
            }
            list.insert(p, inode);
            proof {
                let s = list@;
                assert(s =~= old_list.take(p as int).push(inode) + old_list.skip(p as int));
                assert forall|a: int, b: int| 0 <= a < b < s.len() implies bytes_lt(#[trigger] ikey(s[a]), #[trigger] ikey(s[b])) by {
                    if a < p && b < p {
                        assert(s[a] == old_list[a] && s[b] == old_list[b]);
                    } else if a < p && b == p {
                    } else if a < p {
                        assert(s[a] == old_list[a] && s[b] == old_list[b - 1]);
                        lemma_lt_transitive(ikey(old_list[a]), k, ikey(old_list[b - 1]));
                    } else if a == p {
                        assert(s[b] == old_list[b - 1]);
                    } else {
                        assert(s[a] == old_list[a - 1] && s[b] == old_list[b - 1]);
                    }
                }
                lemma_lookup_at(s, p as int);
                assert forall|k2: Seq<u8>| k2 != k implies #[trigger] lookup(s, k2) == lookup(old_list, k2) by {
                    if has_key(old_list, k2) {
                        let j = choose|j: int| 0 <= j < old_list.len() && #[trigger] ikey(old_list[j]) == k2;
                        lemma_lookup_at(old_list, j);
                        if j < p {
                            assert(s[j] == old_list[j]);
                            lemma_lookup_at(s, j);
                        } else {
                            assert(s[j + 1] == old_list[j]);
                            lemma_lookup_at(s, j + 1);
                        }
                    } else {
                        if has_key(s, k2) {
                            let j = choose|j: int| 0 <= j < s.len() && #[trigger] ikey(s[j]) == k2;
                            if j < p {
                                assert(ikey(old_list[j]) == k2);
                            } else if j > p {
                                assert(ikey(old_list[j - 1]) == k2);
                            }
                        }
                    }
                }
            }
        },
    }
}

/// Remove the entry with key `key`.
fn remove_key(list: &mut Vec<Inode>, key: &[u8]) -> (r: Option<Inode>)
    requires
        sorted_unique(old(list)@),
    ensures
        sorted_unique(final(list)@),
        r == lookup(old(list)@, key@),
        lookup(final(list)@, key@) is None,
        forall|k: Seq<u8>| k != key@ ==> #[trigger] lookup(final(list)@, k) == lookup(old(list)@, k),
{
    let ghost old_list = list@;
    match find_index(list, key) {
        Some(i) => {
            proof {
                lemma_lookup_at(old_list, i as int);
            }
            let item = list.remove(i);
            proof {
                let s = list@;
                assert(s =~= old_list.take(i as int) + old_list.skip(i as int + 1));
                assert forall|a: int, b: int| 0 <= a < b < s.len() implies bytes_lt(#[trigger] ikey(s[a]), #[trigger] ikey(s[b])) by {
                    if b < i {
                    } else if a < i {
                        assert(s[b] == old_list[b + 1]);
                    } else {
                        assert(s[a] == old_list[a + 1] && s[b] == old_list[b + 1]);
                    }
                }
                if has_key(s, key@) {
                    let j = choose|j: int| 0 <= j < s.len() && #[trigger] ikey(s[j]) == key@;
                    let oj = if j < i { j } else { j + 1 };
                    assert(ikey(old_list[oj]) == key@);
                    lemma_lt_irreflexive(key@);
                    if oj < i {
                        assert(bytes_lt(ikey(old_list[oj]), ikey(old_list[i as int])));
                    } else {
                        assert(bytes_lt(ikey(old_list[i as int]), ikey(old_list[oj])));
                    }
                }
                assert forall|k2: Seq<u8>| k2 != key@ implies #[trigger] lookup(s, k2) == lookup(old_list, k2) by {
                    if has_key(old_list, k2) {
                        let j = choose|j: int| 0 <= j < old_list.len() && #[trigger] ikey(old_list[j]) == k2;
                        lemma_lookup_at(old_list, j);
                        assert(j != i);
                        if j < i {
                            assert(s[j] == old_list[j]);
                            lemma_lookup_at(s, j);
                        } else {
                            assert(s[j - 1] == old_list[j]);
                            lemma_lookup_at(s, j - 1);
                        }
                    } else {
                        if has_key(s, k2) {
                            let j = choose|j: int| 0 <= j < s.len() && #[trigger] ikey(s[j]) == k2;
                            if j < i {
                                assert(ikey(old_list[j]) == k2);
                            } else {
                                assert(ikey(old_list[j + 1]) == k2);
                            }
                        }
                    }
                }
            }
            Some(item)
        },
        None => None,
    }
}

fn copy_key(inode: &Inode) -> (r: Vec<u8>)
    ensures
        r@ == ikey(*inode),
{
    let b = inode.path.as_str().as_bytes();
    crate::ondisk::codec::copy_range(b, 0, b.len())
}

/// Build a sorted list from `v`; a later entry replaces an earlier one with
/// the same key.
fn build_sorted(v: Vec<Inode>) -> (r: Vec<Inode>)
    ensures
        sorted_unique(r@),
        forall|k: Seq<u8>| #[trigger] lookup(r@, k) == last_with_key(v@, k),
{
    let ghost orig = v@;
    let mut rev: Vec<Inode> = Vec::new();
    let mut src = v;
    while src.len() > 0
        invariant
            src@ + rev@.reverse() == orig,
        decreases src@.len(),
    {
        let x = src.pop().unwrap();
        let ghost before = rev@;
        rev.push(x);
        proof {
            assert(rev@.reverse() =~= seq![x] + before.reverse());
            assert(src@ + rev@.reverse() =~= orig);
        }
    }
    proof {
        assert(src@ =~= Seq::<Inode>::empty());
        assert(rev@.reverse() =~= orig);
    }
    let mut out: Vec<Inode> = Vec::new();
    let ghost mut taken: int = 0;
    while rev.len() > 0
        invariant
            0 <= taken <= orig.len(),
            rev@.reverse() == orig.skip(taken),
            sorted_unique(out@),
            forall|k: Seq<u8>| #[trigger] lookup(out@, k) == last_with_key(orig.take(taken), k),
        decreases rev@.len(),
    {
        let ghost before = rev@;
        let x = rev.pop().unwrap();
        proof {
            assert(before.reverse() =~= seq![x] + rev@.reverse());
            assert(orig.skip(taken).len() == orig.len() - taken);
            assert(taken < orig.len());
            assert(before.reverse()[0] == x);
            assert(orig.skip(taken)[0] == x);
            assert forall|j: int| 0 <= j < rev@.reverse().len() implies rev@.reverse()[j] == orig.skip(taken + 1)[j] by {
                assert(rev@.reverse()[j] == before.reverse()[j + 1]);
                assert(before.reverse()[j + 1] == orig.skip(taken)[j + 1]);
            }
            assert(rev@.reverse() =~= orig.skip(taken + 1));
        }
        let ghost prev_out = out@;
        let ghost kx = ikey(x);
        insert_sorted(&mut out, x);
        proof {
            let t1 = orig.take(taken + 1);
            assert(t1.drop_last() =~= orig.take(taken));
            assert(t1.last() == x);
            assert forall|k: Seq<u8>| #[trigger] lookup(out@, k) == last_with_key(t1, k) by {
                if k != kx {
                    assert(lookup(out@, k) == lookup(prev_out, k));
                }
            }
            taken = taken + 1;
        }
    }
    proof {
        assert(rev@.reverse().len() == 0);
        assert(orig.take(taken) =~= orig);
    }
    out
}

/// Path-keyed catalog of active and soft-deleted inodes.
#[derive(Debug)]
pub struct Catalog {
    entries: Vec<Inode>,
    deleted: Vec<Inode>,
}

impl Default for Catalog {
    fn default() -> (r: Self)
        ensures
            r.wf(),
            r.active()@.len() == 0,
            r.removed()@.len() == 0,
    {
        Catalog { entries: Vec::new(), deleted: Vec::new() }
    }
}

impl Catalog {
    /// Active entries in path order.
    pub closed spec fn active(&self) -> Vec<Inode> {
        self.entries
    }

    /// Soft-deleted entries in path order.
    pub closed spec fn removed(&self) -> Vec<Inode> {
        self.deleted
    }

    /// Both lists are sorted by path with unique paths.
    pub open spec fn wf(&self) -> bool {
        sorted_unique(self.active()@) && sorted_unique(self.removed()@)
    }

    /// Add `inode` to the active entries, replacing one with the same path.
    pub fn insert(&mut self, inode: Inode)
        requires
            old(self).wf(),
        ensures
            final(self).wf(),
            lookup(final(self).active()@, ikey(inode)) == Some(inode),
            forall|k: Seq<u8>| k != ikey(inode) ==> #[trigger] lookup(final(self).active()@, k) == lookup(old(self).active()@, k),
            final(self).removed() == old(self).removed(),
    {
        insert_sorted(&mut self.entries, inode);
    }

    /// The active inode at `path`.
    pub fn get(&self, path: &str) -> (r: Option<&Inode>)
        requires
            self.wf(),
        ensures
            r matches Some(x) ==> lookup(self.active()@, path.spec_bytes()) == Some(*x),
            r is None ==> lookup(self.active()@, path.spec_bytes()) is None,
    {
        match find_index(&self.entries, path.as_bytes()) {
            Some(i) => {
                proof {
                    lemma_lookup_at(self.entries@, i as int);
                }
                Some(&self.entries[i])
            },
            None => None,
        }
    }

    /// The active inode at `path`, for modification in place.
    pub fn get_mut(&mut self, path: &str) -> (r: Option<&mut Inode>)
        requires
            old(self).wf(),
        ensures
            r is None <==> lookup(old(self).active()@, path.spec_bytes()) is None,
            r matches Some(x) ==> lookup(old(self).active()@, path.spec_bytes()) == Some(*x),
    {
        match find_index(&self.entries, path.as_bytes()) {
            Some(i) => {
                proof {
                    lemma_lookup_at(self.entries@, i as int);
                }
                Some(&mut self.entries[i])
            },
            None => None,
        }
    }

    /// Remove and return the active inode at `path`.
    pub fn remove(&mut self, path: &str) -> (r: Option<Inode>)
        requires
            old(self).wf(),
        ensures
            final(self).wf(),
            r == lookup(old(self).active()@, path.spec_bytes()),
            lookup(final(self).active()@, path.spec_bytes()) is None,
            forall|k: Seq<u8>| k != path.spec_bytes() ==> #[trigger] lookup(final(self).active()@, k) == lookup(old(self).active()@, k),
            final(self).removed() == old(self).removed(),
    {
        remove_key(&mut self.entries, path.as_bytes())
    }

    /// Record `inode` as soft-deleted (replacing one with the same path).
    pub fn move_to_deleted(&mut self, inode: Inode)
        requires
            old(self).wf(),
        ensures
            final(self).wf(),
            lookup(final(self).removed()@, ikey(inode)) == Some(inode),
            forall|k: Seq<u8>| k != ikey(inode) ==> #[trigger] lookup(final(self).removed()@, k) == lookup(old(self).removed()@, k),
            final(self).active() == old(self).active(),
    {
        insert_sorted(&mut self.deleted, inode);
    }

    /// Take the soft-deleted inode at `path` out of the deleted list.
    pub fn restore_deleted(&mut self, path: &str) -> (r: Option<Inode>)
        requires
            old(self).wf(),
        ensures
            final(self).wf(),
            r == lookup(old(self).removed()@, path.spec_bytes()),
            lookup(final(self).removed()@, path.spec_bytes()) is None,
            forall|k: Seq<u8>| k != path.spec_bytes() ==> #[trigger] lookup(final(self).removed()@, k) == lookup(old(self).removed()@, k),
            final(self).active() == old(self).active(),
    {
        remove_key(&mut self.deleted, path.as_bytes())
    }

    /// Permanently drop the soft-deleted inode at `path` (no restore).
    pub fn remove_from_deleted(&mut self, path: &str) -> (r: Option<Inode>)
        requires
            old(self).wf(),
        ensures
            final(self).wf(),
            r == lookup(old(self).removed()@, path.spec_bytes()),
            lookup(final(self).removed()@, path.spec_bytes()) is None,
            forall|k: Seq<u8>| k != path.spec_bytes() ==> #[trigger] lookup(final(self).removed()@, k) == lookup(old(self).removed()@, k),
            final(self).active() == old(self).active(),
    {
        remove_key(&mut self.deleted, path.as_bytes())
    }

    /// A soft-deleted inode exists at `path`.
    pub fn deleted_contains(&self, path: &str) -> (r: bool)
        ensures
            r == has_key(self.removed()@, path.spec_bytes()),
    {
        find_index(&self.deleted, path.as_bytes()).is_some()
    }

    /// Active paths in path order.
    pub fn list_paths(&self) -> (r: Vec<String>)
        ensures
            r@.len() == self.active()@.len(),
            forall|i: int| 0 <= i < r@.len() ==> #[trigger] r@[i]@ == self.active()@[i].path@,
    {
        paths_of(&self.entries)
    }

    /// Soft-deleted paths in path order.
    pub fn list_deleted_paths(&self) -> (r: Vec<String>)
        ensures
            r@.len() == self.removed()@.len(),
            forall|i: int| 0 <= i < r@.len() ==> #[trigger] r@[i]@ == self.removed()@[i].path@,
    {
        paths_of(&self.deleted)
    }

    /// The first active inode (in path order) with identifier `inode_id`.
    pub fn inode_by_id(&self, inode_id: InodeId) -> (r: Option<&Inode>)
        ensures
            r matches Some(x) ==> exists|i: int| 0 <= i < self.active()@.len() && self.active()@[i] == *x
                && x.id == inode_id
                && forall|j: int| 0 <= j < i ==> (#[trigger] self.active()@[j]).id != inode_id,
            r is None ==> forall|j: int| 0 <= j < self.active()@.len() ==> (#[trigger] self.active()@[j]).id != inode_id,
    {
        let mut i: usize = 0;
        while i < self.entries.len()
            invariant
                i <= self.entries@.len(),
                forall|j: int| 0 <= j < i ==> (#[trigger] self.entries@[j]).id != inode_id,
            decreases self.entries@.len() - i,
        {
            if self.entries[i].id.0 == inode_id.0 {
                return Some(&self.entries[i]);
            }
            i = i + 1;
        }
        None
    }

    /// `(file_count, total_bytes)` over the active non-directory entries.
    pub fn quota_stats(&self) -> (r: (usize, usize))
        requires
            file_bytes(self.active()@, self.active()@.len() as int) <= usize::MAX,
        ensures
            r.0 == file_count(self.active()@, self.active()@.len() as int),
            r.1 == file_bytes(self.active()@, self.active()@.len() as int),
            r.0 == non_directories(self.active()@).len(),
            r.1 == sizes_sum(non_directories(self.active()@)),
    {
        proof {
            lemma_quota_counts_non_directories(self.active()@, self.active()@.len() as int);
            assert(self.active()@.take(self.active()@.len() as int) =~= self.active()@);
        }
        let mut files: usize = 0;
        let mut bytes: usize = 0;
        let mut i: usize = 0;
        let n = self.entries.len();
        while i < n
            invariant
                i <= n == self.entries@.len(),
                files == file_count(self.entries@, i as int),
                bytes == file_bytes(self.entries@, i as int),
                file_bytes(self.entries@, n as int) <= usize::MAX,
            decreases n - i,
        {
            proof {
                lemma_file_count_bound(self.entries@, i as int + 1);
                lemma_file_bytes_mono(self.entries@, i as int + 1, n as int);
            }
            let inode = &self.entries[i];
            if inode.kind != InodeKind::Directory {
                files = files + 1;
                bytes = bytes + inode.size;
            }
            i = i + 1;
        }
        (files, bytes)
    }

    /// Copies of the active entries in path order.
    pub fn active_entries(&self) -> (r: Vec<Inode>)
        ensures
            r@.len() == self.active()@.len(),
            forall|i: int| 0 <= i < r@.len() ==> #[trigger] r@[i]@ == self.active()@[i]@,
    {
        clone_all(&self.entries)
    }

    /// Copies of the soft-deleted entries in path order.
    pub fn deleted_entries(&self) -> (r: Vec<Inode>)
        ensures
            r@.len() == self.removed()@.len(),
            forall|i: int| 0 <= i < r@.len() ==> #[trigger] r@[i]@ == self.removed()@[i]@,
    {
        clone_all(&self.deleted)
    }

    /// Catalog from lists; a later inode replaces an earlier one with the
    /// same path.
    pub fn from_parts(active: Vec<Inode>, deleted: Vec<Inode>) -> (r: Self)
        ensures
            r.wf(),
            forall|k: Seq<u8>| #[trigger] lookup(r.active()@, k) == last_with_key(active@, k),
            forall|k: Seq<u8>| #[trigger] lookup(r.removed()@, k) == last_with_key(deleted@, k),
    {
        let entries = build_sorted(active);
        let deleted = build_sorted(deleted);
        Catalog { entries, deleted }
    }

    /// Replace the active entries.
    pub fn replace_active_entries(&mut self, active: Vec<Inode>)
        requires
            old(self).wf(),
        ensures
            final(self).wf(),
            forall|k: Seq<u8>| #[trigger] lookup(final(self).active()@, k) == last_with_key(active@, k),
            final(self).removed() == old(self).removed(),
    {
        self.entries = build_sorted(active);
    }

    /// Replace the soft-deleted entries.
    pub fn replace_deleted_entries(&mut self, deleted: Vec<Inode>)
        requires
            old(self).wf(),
        ensures
            final(self).wf(),
            forall|k: Seq<u8>| #[trigger] lookup(final(self).removed()@, k) == last_with_key(deleted@, k),
            final(self).active() == old(self).active(),
    {
        self.deleted = build_sorted(deleted);
    }
}

fn paths_of(list: &Vec<Inode>) -> (r: Vec<String>)
    ensures
        r@.len() == list@.len(),
        forall|i: int| 0 <= i < r@.len() ==> #[trigger] r@[i]@ == list@[i].path@,
{
    let mut out: Vec<String> = Vec::new();
    let mut i: usize = 0;
    while i < list.len()
        invariant
            i <= list@.len(),
            out@.len() == i,
            forall|j: int| 0 <= j < i ==> #[trigger] out@[j]@ == list@[j].path@,
        decreases list@.len() - i,
    {
        out.push(list[i].path.clone());
        i = i + 1;
    }
    out
}

fn clone_all(list: &Vec<Inode>) -> (r: Vec<Inode>)
    ensures
        r@.len() == list@.len(),
        forall|i: int| 0 <= i < r@.len() ==> #[trigger] r@[i]@ == list@[i]@,
{
    let mut out: Vec<Inode> = Vec::new();
    let mut i: usize = 0;
    while i < list.len()
        invariant
            i <= list@.len(),
            out@.len() == i,
            forall|j: int| 0 <= j < i ==> #[trigger] out@[j]@ == list@[j]@,
        decreases list@.len() - i,
    {
        out.push(list[i].clone());
        i = i + 1;
    }
    out
}

} // verus!
