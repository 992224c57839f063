//! The file system of one device: superblock geometry, the log, and the
//! block device, with transactional whole-block reads and writes.
//!
//! All mutation goes through an open transaction: a write records the block
//! in the log's current group, and the device itself changes only when the
//! group commits. `at` is the content a block logically has inside the open
//! group: the recorded content if the group wrote it, else the durable one.

use vstd::prelude::*;

verus! {

use crate::block::Block;
use crate::disk::Disk;
use crate::log::{Log, recovered, hdr_valid};
use crate::{BSIZE, BPB, IPB, MAXOPBLOCKS, FsError};

/// Immutable device geometry, fixed at mount.
///
/// The on-disk layout is, in block order: boot block, superblock, the log
/// region (`nlog` blocks at `logstart`), the inode region, the bitmap
/// region, and the data region from `dstart` up. One bitmap bit tracks one
/// data block: bit `i` of the bitmap is block `dstart + i`.
pub struct Superblock {
    /// Total blocks on the device.
    pub size: u32,
    /// Blocks in the log region, header included.
    pub nlog: u32,
    /// First block of the log region.
    pub logstart: u32,
    /// First block of the inode region.
    pub inodestart: u32,
    /// Number of on-disk inodes.
    pub ninodes: u32,
    /// First block of the bitmap region.
    pub bmapstart: u32,
    /// First block of the data region.
    pub dstart: u32,
}

impl Superblock {
    /// Blocks the inode region needs.
    pub open spec fn ninode_blocks(&self) -> int {
        (self.ninodes as int + IPB as int - 1) / (IPB as int)
    }

    /// Data blocks tracked by the bitmap.
    pub open spec fn ndata(&self) -> int {
        self.size as int - self.dstart as int
    }

    /// Blocks the bitmap region needs.
    pub open spec fn nbmap_blocks(&self) -> int {
        (self.ndata() + BPB as int - 1) / (BPB as int)
    }

    /// The regions are ordered and disjoint and fit the device, and the
    /// log's entry list fits its header block.
    pub open spec fn wf(&self) -> bool {
        &&& 2 <= self.logstart
        &&& 2 <= self.nlog
        &&& MAXOPBLOCKS as int <= self.nlog as int - 1
        &&& 4 + 4 * (self.nlog as int - 1) <= BSIZE as int
        &&& self.logstart as int + self.nlog as int <= self.inodestart as int
        &&& 1 <= self.ninodes
        &&& self.inodestart as int + self.ninode_blocks() <= self.bmapstart as int
        &&& self.bmapstart as int + self.nbmap_blocks() <= self.dstart as int
        &&& self.dstart <= self.size
    }

    /// The bitmap block holding the bit of data block `b`.
    pub open spec fn bblock(&self, b: int) -> int {
        self.bmapstart as int + (b - self.dstart as int) / (BPB as int)
    }

    /// The inode-region block holding inode `inum`.
    pub open spec fn iblock(&self, inum: int) -> int {
        self.inodestart as int + inum / (IPB as int)
    }
}

/// A handle for one open file-system operation, returned by
/// `begin_transaction` and surrendered to `end_transaction`. Closing it is
/// what makes the operation's writes durable (at once, or merged into the
/// commit of the group it ran with).
pub struct FsTransaction {
    /// Device the operation runs on.
    pub dev: u32,
}

/// The file system of one device.
pub struct FileSystem {
    /// Geometry, read-only after mount.
    pub sb: Superblock,
    /// The write-ahead log and its open commit group.
    pub log: Log,
    /// The block device.
    pub disk: Disk,
}

impl FileSystem {
    /// The geometry the file system was mounted with.
    pub open spec fn spec_sb(&self) -> Superblock {
        self.sb
    }

    pub open spec fn spec_disk(&self) -> Disk {
        self.disk
    }

    /// The durable disk content.
    pub open spec fn disk_view(&self) -> Seq<Seq<u8>> {
        self.spec_disk()@
    }

    pub open spec fn spec_log(&self) -> Log {
        self.log
    }

    /// The content block `bno` logically has inside the open group.
    pub open spec fn at(&self, bno: u32) -> Seq<u8> {
        self.spec_log().view_of(self.disk_view(), bno)
    }

    /// Blocks the open group has recorded so far.
    pub open spec fn recorded(&self) -> Seq<u32> {
        self.spec_log().bnos()
    }

    /// Operations currently admitted and not yet closed.
    pub open spec fn outstanding(&self) -> u32 {
        self.spec_log().spec_outstanding()
    }

    /// Room in the log's current group for `k` more distinct blocks.
    pub open spec fn room_for(&self, k: int) -> bool {
        self.recorded().len() + k <= self.spec_log().capacity()
    }

    /// A block transactional writes may target: a real block outside the
    /// boot block, the superblock and the log region.
    pub open spec fn ok_target(&self, bno: u32) -> bool {
        self.spec_log().ok_target(bno)
    }

    pub open spec fn wf(&self) -> bool {
        &&& self.spec_sb().wf()
        &&& self.spec_log().wf()
        &&& self.spec_disk().wf()
        &&& self.disk_view().len() == self.spec_sb().size
        &&& self.spec_log().spec_start() == self.spec_sb().logstart
        &&& self.spec_log().spec_size() == self.spec_sb().nlog
        &&& self.spec_log().spec_disk_size() == self.spec_sb().size
        &&& !self.spec_log().spec_committing()
    }

    /// Every block of the logical view is block sized.
    pub proof fn lemma_at_wf(&self, bno: u32)
        requires
            self.wf(),
            bno < self.spec_sb().size,
        ensures
            self.at(bno).len() == BSIZE,
    {
        if self.spec_log().has(bno) {
            self.spec_log().lemma_has_idx(bno);
            let j = self.spec_log().idx(bno);
            assert(self.spec_log().datas()[j].len() == BSIZE);
        } else {
            assert(self.disk_view()[bno as int].len() == BSIZE);
        }
    }

    /// Mount: adopt the device, check its geometry, and run crash recovery.
    /// A device whose log header the geometry cannot admit is refused, as is
    /// geometry that does not fit the device.
    pub fn init(dev: u32, sb: Superblock, disk: Disk) -> (r: Result<FileSystem, FsError>)
        requires
            sb.wf(),
            disk.wf(),
            disk@.len() == sb.size,
        ensures
            r is Ok <==> hdr_valid(disk@, sb.logstart as int, sb.nlog as int),
            r is Ok ==> {
                let fs = r->Ok_0;
                &&& fs.wf()
                &&& fs.spec_sb() == sb
                &&& fs.disk_view() == recovered(disk@, sb.logstart as int)
                &&& fs.outstanding() == 0
                &&& fs.recorded().len() == 0
            },
    {
        let log = Log::new(dev, sb.logstart, sb.nlog, sb.size);
        let mut disk = disk;
        match log.recover(&mut disk) {
            Ok(()) => Ok(FileSystem { sb, log, disk }),
            Err(e) => Err(e),
        }
    }

    /// Open a transaction: admit one more operation if no commit is in
    /// progress and the log can reserve its worst case, else refuse it (the
    /// kernel would block here and retry; the caller does the same).
    pub fn begin_transaction(&mut self, dev: u32) -> (r: Option<FsTransaction>)
        requires
            old(self).wf(),
        ensures
            final(self).wf(),
            final(self).spec_sb() == old(self).spec_sb(),
            final(self).disk_view() == old(self).disk_view(),
            r is Some <==> old(self).spec_log().can_begin(),
            r is Some ==> final(self).outstanding() == old(self).outstanding() + 1
                && final(self).recorded() == old(self).recorded()
                && final(self).spec_log().datas() == old(self).spec_log().datas(),
            r is None ==> *final(self) == *old(self),
    {
        if self.log.begin_op() {
            Some(FsTransaction { dev })
        } else {
            None
        }
    }

    /// Close a transaction. If it was the last outstanding operation and the
    /// group recorded anything, the whole group commits to disk.
    pub fn end_transaction(&mut self, t: FsTransaction)
        requires
            old(self).wf(),
            old(self).outstanding() > 0,
        ensures
            final(self).wf(),
            final(self).spec_sb() == old(self).spec_sb(),
            Log::end_post(
                old(self).spec_log(),
                final(self).spec_log(),
                old(self).disk_view(),
                final(self).disk_view(),
            ),
            final(self).outstanding() == old(self).outstanding() - 1,
    {
        let FsTransaction { dev: _ } = t;
        let log = &mut self.log;
        log.end_op(&mut self.disk);
    }

    /// Read block `bno` as the open group sees it.
    pub fn read_block(&self, bno: u32) -> (r: Block)
        requires
            self.wf(),
            bno < self.spec_sb().size,
        ensures
            r.wf(),
            r@ == self.at(bno),
    {
        self.log.read(&self.disk, bno)
    }

    /// Read block `bno` straight from the device, ignoring the open group.
    pub fn read_durable(&self, bno: u32) -> (r: Block)
        requires
            self.wf(),
            bno < self.spec_sb().size,
        ensures
            r.wf(),
            r@ == self.disk_view()[bno as int],
    {
        proof {
            assert(self.disk_view()[bno as int].len() == BSIZE);
        }
        self.disk.read(bno as usize)
    }

    /// Record `blk` as the new content of block `bno` in the open group.
    /// Nothing reaches the device until the group commits; within the group
    /// every later read of `bno` sees `blk`.
    pub fn write_block(&mut self, bno: u32, blk: Block)
        requires
            old(self).wf(),
            old(self).outstanding() > 0,
            blk.wf(),
            old(self).ok_target(bno),
            old(self).spec_log().has(bno) || old(self).room_for(1),
        ensures
            final(self).wf(),
            final(self).spec_sb() == old(self).spec_sb(),
            final(self).disk_view() == old(self).disk_view(),
            final(self).outstanding() == old(self).outstanding(),
            final(self).at(bno) == blk@,
            forall|b: u32| b != bno ==> final(self).at(b) == old(self).at(b),
            final(self).spec_log().has(bno),
            forall|b: u32|
                #[trigger] final(self).spec_log().has(b) == (old(self).spec_log().has(b) || b
                    == bno),
            final(self).recorded().len() as int == if old(self).spec_log().has(bno) {
                old(self).recorded().len() as int
            } else {
                old(self).recorded().len() as int + 1
            },
    {
        let ghost pre = self.log;
        let log = &mut self.log;
        log.write(bno, blk);
        proof {
            let post = self.log;
            let d = self.disk@;
            if pre.has(bno) {
                pre.lemma_has_idx(bno);
                let j = pre.idx(bno);
                assert(post.bnos() == pre.bnos());
                post.lemma_idx_unique(bno, j);
                assert(post.data_of(bno) == blk@);
                assert forall|b: u32| b != bno implies post.view_of(d, b) == pre.view_of(
                    d,
                    b,
                ) by {
                    if pre.has(b) {
                        pre.lemma_has_idx(b);
                        let m = pre.idx(b);
                        post.lemma_idx_unique(b, m);
                        assert(m != j);
                    } else {
                        assert(!post.has(b)) by {
                            if post.has(b) {
                                post.lemma_has_idx(b);
                            }
                        }
                    }
                }
                assert forall|b: u32| #[trigger] post.has(b) == (pre.has(b) || b == bno) by {
                    if post.has(b) {
                        post.lemma_has_idx(b);
                    }
                    if pre.has(b) {
                        pre.lemma_has_idx(b);
                        let m = pre.idx(b);
                        assert(post.bnos()[m] == b);
                    }
                }
            } else {
                let n = pre.bnos().len() as int;
                assert(post.bnos()[n] == bno);
                post.lemma_idx_unique(bno, n);
                assert(post.data_of(bno) == blk@);
                assert forall|b: u32| b != bno implies post.view_of(d, b) == pre.view_of(
                    d,
                    b,
                ) by {
                    if pre.has(b) {
                        pre.lemma_has_idx(b);
                        let m = pre.idx(b);
                        assert(post.bnos()[m] == b);
                        post.lemma_idx_unique(b, m);
                    } else {
                        assert(!post.has(b)) by {
                            if post.has(b) {
                                post.lemma_has_idx(b);
                                let m = post.idx(b);
                                if m < n {
                                    assert(pre.bnos()[m] == b);
                                }
                            }
                        }
                    }
                }
                assert forall|b: u32| #[trigger] post.has(b) == (pre.has(b) || b == bno) by {
                    if post.has(b) {
                        post.lemma_has_idx(b);
                        let m = post.idx(b);
                        if m < n {
                            assert(pre.bnos()[m] == b);
                        }
                    }
                    if pre.has(b) {
                        pre.lemma_has_idx(b);
                        let m = pre.idx(b);
                        assert(post.bnos()[m] == b);
                    }
                }
            }
        }
    }
}

} // verus!
