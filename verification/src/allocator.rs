//! Inode-number allocator: hands out fresh identifiers and recycles
//! released ones first-in, first-out.
use vstd::prelude::*;
use std::collections::VecDeque;
use crate::domain::InodeId;

verus! {

/// Allocator of inode identifiers.
#[derive(Debug)]
pub struct InodeAllocator {
    next_inode: u64,
    recycled: VecDeque<InodeId>,
}

impl Default for InodeAllocator {
    fn default() -> (r: Self)
        ensures
            r.next() == 0,
            r.queue().len() == 0,
    {
        InodeAllocator::with_next_inode(0)
    }
}

impl InodeAllocator {
    /// Highest identifier handed out fresh so far.
    pub closed spec fn next(&self) -> u64 {
        self.next_inode
    }

    /// Released identifiers waiting for reuse, oldest first.
    pub closed spec fn queue(&self) -> Seq<InodeId> {
        self.recycled@
    }

    /// Hand out the oldest released identifier, or else the next fresh one.
    pub fn allocate(&mut self) -> (r: InodeId)
        requires
            old(self).queue().len() > 0 || old(self).next() < u64::MAX,
        ensures
            old(self).queue().len() > 0 ==> r == old(self).queue()[0]
                && final(self).queue() == old(self).queue().drop_first()
                && final(self).next() == old(self).next(),
            old(self).queue().len() == 0 ==> r.0 == old(self).next() + 1
                && final(self).next() == old(self).next() + 1
                && final(self).queue().len() == 0,
    {
        if let Some(id) = self.recycled.pop_front() {
            id
        } else {
            self.next_inode = self.next_inode + 1;
            InodeId(self.next_inode)
        }
    }

    /// Queue `inode` for reuse.
    pub fn release(&mut self, inode: InodeId)
        ensures
            final(self).queue() == old(self).queue().push(inode),
            final(self).next() == old(self).next(),
    {
        self.recycled.push_back(inode);
    }

    /// Allocator whose next fresh identifier is `next_inode + 1`.
    pub fn with_next_inode(next_inode: u64) -> (r: Self)
        ensures
            r.next() == next_inode,
            r.queue().len() == 0,
    {
        InodeAllocator { next_inode, recycled: VecDeque::new() }
    }

    /// Reserve a specific identifier: it leaves the reuse queue and fresh
    /// allocation continues above it.
    pub fn allocate_specific(&mut self, inode: InodeId)
        ensures
            final(self).next() == if inode.0 > old(self).next() { inode.0 } else { old(self).next() },
            final(self).queue() == old(self).queue().filter(|x: InodeId| x != inode),
    {
        let ghost q = self.recycled@;
        let mut kept: VecDeque<InodeId> = VecDeque::new();
        let mut i: usize = 0;
        let n = self.recycled.len();
        while i < n
            invariant
                i <= n == q.len(),
                self.recycled@ == q,
                kept@ == q.take(i as int).filter(|x: InodeId| x != inode),
            decreases n - i,
        {
            let x = self.recycled[i];
            if x.0 != inode.0 {
                kept.push_back(x);
            }
            proof {
                let t = q.take(i as int + 1);
                assert(t.drop_last() =~= q.take(i as int));
                assert(t.last() == x);
                q.take(i as int).lemma_filter_push(x, |x: InodeId| x != inode);
                assert(t =~= q.take(i as int).push(x));
            }
            i = i + 1;
        }
        proof {
            assert(q.take(n as int) =~= q);
        }
        self.recycled = kept;
        if inode.0 > self.next_inode {
            self.next_inode = inode.0;
        }
    }
}

} // verus!
