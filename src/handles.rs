//! Tables of open file and directory handles: each maps a handle number, given
//! out by a counter that wraps, to the inode it was opened for.
use vstd::prelude::*;
use std::collections::HashMap;

verus! {

broadcast use vstd::std_specs::hash::group_hash_axioms;

pub struct HandleTable {
    pub open: HashMap<u64, u64>,
    pub next: u64,
}

pub open spec fn wrapping_next(n: u64) -> u64 {
    if n == u64::MAX {
        0
    } else {
        (n + 1) as u64
    }
}

impl HandleTable {
    pub fn new() -> (r: HandleTable)
        ensures
            r.open@ == Map::<u64, u64>::empty(),
            r.next == 0,
    {
        HandleTable { open: HashMap::new(), next: 0 }
    }

    /// Records a new handle for `ino` and returns it. The counter wraps after
    /// `u64::MAX`; a handle still open under the same number is replaced.
    pub fn open(&mut self, ino: u64) -> (fh: u64)
        ensures
            fh == old(self).next,
            final(self).open@ == old(self).open@.insert(fh, ino),
            final(self).next == wrapping_next(old(self).next),
    {
        let fh = self.next;
        self.open.insert(fh, ino);
        self.next = self.next.wrapping_add(1);
        fh
    }

    /// The handle is open, for `ino`.
    pub fn check(&self, fh: u64, ino: u64) -> (r: bool)
        ensures
            r == (self.open@.contains_key(fh) && self.open@[fh] == ino),
    {
        match self.open.get(&fh) {
            Some(i) => *i == ino,
            None => false,
        }
    }

    /// The inode a handle was opened for.
    pub fn inode_of(&self, fh: u64) -> (r: Option<u64>)
        ensures
            match r {
                Some(i) => self.open@.contains_key(fh) && self.open@[fh] == i,
                None => !self.open@.contains_key(fh),
            },
    {
        match self.open.get(&fh) {
            Some(i) => Some(*i),
            None => None,
        }
    }

    /// Closes a handle opened for `ino`; a handle for another inode stays open.
    pub fn release(&mut self, fh: u64, ino: u64) -> (r: bool)
        ensures
            r == (old(self).open@.contains_key(fh) && old(self).open@[fh] == ino),
            r ==> final(self).open@ == old(self).open@.remove(fh),
            !r ==> final(self).open@ == old(self).open@,
            final(self).next == old(self).next,
    {
        if self.check(fh, ino) {
            self.open.remove(&fh);
            true
        } else {
            false
        }
    }
}

/// While the handles below the counter are all open, opening another keeps them
/// open for their inodes and gives a handle that none of them has: so long as no
/// live handle is met again after the counter wraps, every handle maps to the
/// inode it was opened for.
pub proof fn lemma_open_keeps_handles(old_open: Map<u64, u64>, next: u64, ino: u64)
    requires
        !old_open.contains_key(next),
    ensures
        forall|h: u64| #[trigger] old_open.contains_key(h) ==> old_open.insert(next, ino)[h] == old_open[h],
        old_open.insert(next, ino)[next] == ino,
{
}

} // verus!
