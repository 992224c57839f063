//! The in-memory inode table: a fixed-capacity set of cached references
//! keyed by device and inode number. `get` hands out a reference-counted
//! handle, sharing the slot of an inode already present; `put` releases a
//! handle and, when the last reference drops on an inode with no links
//! left, reclaims the inode's blocks and marks the on-disk record free.

use vstd::prelude::*;

verus! {

use crate::fs::FileSystem;
use crate::inode::Dinode;
use crate::{NINODE, T_FREE, FsError};

/// One table slot; a zero reference count marks it empty.
pub struct ISlot {
    pub dev: u32,
    pub inum: u32,
    pub refcnt: u32,
}

/// The table of in-memory inodes.
pub struct Itable {
    slots: Vec<ISlot>,
}

impl Itable {
    pub closed spec fn slots_view(&self) -> Seq<ISlot> {
        self.slots@
    }

    pub open spec fn wf(&self) -> bool {
        &&& self.slots_view().len() == NINODE
        &&& forall|i: int, j: int|
            0 <= i < j < NINODE && self.slots_view()[i].refcnt > 0 && self.slots_view()[j].refcnt
                > 0 ==> !(self.slots_view()[i].dev == self.slots_view()[j].dev
                && self.slots_view()[i].inum == self.slots_view()[j].inum)
    }

    /// Whether some live slot already caches `(dev, inum)`.
    pub open spec fn caches(&self, dev: u32, inum: u32) -> bool {
        exists|i: int|
            0 <= i < NINODE && (#[trigger] self.slots_view()[i]).refcnt > 0
                && self.slots_view()[i].dev == dev && self.slots_view()[i].inum == inum
    }

    /// An empty table.
    pub fn new() -> (r: Itable)
        ensures
            r.wf(),
            forall|i: int| 0 <= i < NINODE ==> (#[trigger] r.slots_view()[i]).refcnt == 0,
    {
        let mut slots: Vec<ISlot> = Vec::new();
        let mut i: usize = 0;
        while i < NINODE
            invariant
                i <= NINODE,
                slots@.len() == i,
                forall|j: int| 0 <= j < i ==> (#[trigger] slots@[j]).refcnt == 0,
            decreases NINODE - i,
        {
            slots.push(ISlot { dev: 0, inum: 0, refcnt: 0 });
            i += 1;
        }
        Itable { slots }
    }

    /// Take a reference on `(dev, inum)`: share the slot already caching
    /// it, or claim the first empty slot. With the table full the caller
    /// must wait for another release; in the kernel `get` blocks here.
    pub fn get(&mut self, dev: u32, inum: u32) -> (r: Option<usize>)
        requires
            old(self).wf(),
        ensures
            final(self).wf(),
            match r {
                Some(i) => {
                    &&& i < NINODE
                    &&& final(self).slots_view()[i as int].dev == dev
                    &&& final(self).slots_view()[i as int].inum == inum
                    &&& final(self).slots_view()[i as int].refcnt > 0
                    &&& if old(self).caches(dev, inum) {
                        &&& old(self).slots_view()[i as int].refcnt > 0
                        &&& old(self).slots_view()[i as int].dev == dev
                        &&& old(self).slots_view()[i as int].inum == inum
                        &&& final(self).slots_view()[i as int].refcnt == old(
                            self,
                        ).slots_view()[i as int].refcnt + 1
                    } else {
                        &&& old(self).slots_view()[i as int].refcnt == 0
                        &&& final(self).slots_view()[i as int].refcnt == 1
                    }
                    &&& forall|j: int|
                        0 <= j < NINODE && j != i ==> final(self).slots_view()[j] == old(
                            self,
                        ).slots_view()[j]
                },
                None => {
                    &&& *final(self) == *old(self)
                    &&& (!old(self).caches(dev, inum) && (forall|j: int|
                        0 <= j < NINODE ==> (#[trigger] old(self).slots_view()[j]).refcnt > 0))
                        || (exists|j: int|
                        0 <= j < NINODE && (#[trigger] old(self).slots_view()[j]).dev == dev
                            && old(self).slots_view()[j].inum == inum && old(
                            self,
                        ).slots_view()[j].refcnt == u32::MAX)
                },
            },
    {
        let mut i: usize = 0;
        while i < NINODE
            invariant
                self.wf(),
                *self == *old(self),
                i <= NINODE,
                forall|j: int|
                    0 <= j < i ==> !((#[trigger] self.slots_view()[j]).refcnt > 0
                        && self.slots_view()[j].dev == dev && self.slots_view()[j].inum == inum),
            decreases NINODE - i,
        {
            let s = &self.slots[i];
            if s.refcnt > 0 && s.dev == dev && s.inum == inum {
                let rc = s.refcnt;
                if rc == u32::MAX {
                    // A reference count at the type's limit cannot grow;
                    // treat the table as busy.
                    return None;
                }
                self.slots.set(i, ISlot { dev, inum, refcnt: rc + 1 });
                proof {
                    assert(old(self).caches(dev, inum));
                }
                return Some(i);
            }
            i += 1;
        }
        let mut i: usize = 0;
        while i < NINODE
            invariant
                self.wf(),
                *self == *old(self),
                i <= NINODE,
                !old(self).caches(dev, inum),
                forall|j: int| 0 <= j < i ==> (#[trigger] self.slots_view()[j]).refcnt > 0,
            decreases NINODE - i,
        {
            if self.slots[i].refcnt == 0 {
                self.slots.set(i, ISlot { dev, inum, refcnt: 1 });
                return Some(i);
            }
            i += 1;
        }
        None
    }

    /// Release one reference held through slot `i`. When the last
    /// reference drops and the on-disk record has no links left, the
    /// inode's blocks are reclaimed and the record is marked free; the
    /// result then reports the reclaim.
    pub fn put(&mut self, fs: &mut FileSystem, i: usize) -> (r: Result<bool, FsError>)
        requires
            old(self).wf(),
            old(fs).wf(),
            old(fs).outstanding() > 0,
            i < NINODE,
            old(self).slots_view()[i as int].refcnt > 0,
            old(self).slots_view()[i as int].inum < old(fs).spec_sb().ninodes,
        ensures
            final(self).wf(),
            final(fs).wf(),
            final(fs).spec_sb() == old(fs).spec_sb(),
            final(fs).disk_view() == old(fs).disk_view(),
            final(fs).outstanding() == old(fs).outstanding(),
            final(self).slots_view()[i as int].refcnt == old(self).slots_view()[i as int].refcnt
                - 1,
            forall|j: int|
                0 <= j < NINODE && j != i ==> final(self).slots_view()[j] == old(
                    self,
                ).slots_view()[j],
            forall|i2: int|
                0 <= i2 < old(fs).spec_sb().ninodes && i2 != old(self).slots_view()[i as int].inum
                    ==> final(fs).inode(i2) == old(fs).inode(i2),
            old(self).slots_view()[i as int].refcnt > 1 ==> *final(fs) == *old(fs),
            r == Result::<bool, FsError>::Ok(true) ==> final(fs).inode(
                old(self).slots_view()[i as int].inum as int,
            ).typ == T_FREE,
            r == Result::<bool, FsError>::Ok(false)
                && old(self).slots_view()[i as int].refcnt == 1 && old(fs).inode(
                old(self).slots_view()[i as int].inum as int,
            ).nlink > 0 ==> *final(fs) == *old(fs),
            r == Result::<bool, FsError>::Ok(false) <==> (old(self).slots_view()[i as int].refcnt
                > 1 || old(fs).inode(old(self).slots_view()[i as int].inum as int).nlink > 0),
            match r {
                Ok(_) => true,
                Err(e) => e == FsError::TransactionTooLarge || e == FsError::FreeingFreeBlock
                    || e == FsError::BlockOutOfRange,
            },
    {
        let slot = ISlot {
            dev: self.slots[i].dev,
            inum: self.slots[i].inum,
            refcnt: self.slots[i].refcnt,
        };
        self.slots.set(i, ISlot { dev: slot.dev, inum: slot.inum, refcnt: slot.refcnt - 1 });
        if slot.refcnt > 1 {
            return Ok(false);
        }
        let d = fs.read_inode(slot.inum);
        if d.nlink > 0 {
            return Ok(false);
        }
        // Last reference to an unlinked inode: reclaim its blocks and mark
        // the record free.
        match fs.itrunc(slot.inum) {
            Ok(()) => {},
            Err(e) => {
                return Err(e);
            },
        }
        if fs.log.group_len() + 1 > fs.sb.nlog as usize - 1 {
            return Err(FsError::TransactionTooLarge);
        }
        let nd = Dinode::fresh(T_FREE);
        fs.write_inode(slot.inum, &nd);
        Ok(true)
    }
}

} // verus!
