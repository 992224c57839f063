//! On-disk inodes: a packed array of fixed-size records in the inode
//! region, each holding a type tag, device numbers, a link count, the file
//! size in bytes, `NDIRECT` direct block pointers and one indirect block
//! pointer. All mutation runs through the open transaction.

use vstd::prelude::*;

verus! {

use crate::block::{le32, zero_block};
use crate::fs::{FileSystem, Superblock};
use crate::{BSIZE, DINODE_SIZE, IPB, NDIRECT, NINDIRECT, MAXFILE, T_FREE, FsError};
use vstd::arithmetic::div_mod::{
    lemma_div_is_ordered,
    lemma_div_multiples_vanish,
    lemma_div_pos_is_pos,
    lemma_fundamental_div_mod,
    lemma_mod_bound,
};

/// One on-disk inode record, decoded.
pub struct Dinode {
    /// Type tag: `T_FREE`, `T_DIR`, `T_FILE` or `T_DEVICE`.
    pub typ: u32,
    /// Major device number, meaningful for device nodes.
    pub major: u32,
    /// Minor device number.
    pub minor: u32,
    /// Number of directory entries referring to this inode.
    pub nlink: u32,
    /// File size in bytes.
    pub size: u32,
    /// `NDIRECT` direct block pointers, then the indirect block pointer.
    /// Zero means "no block".
    pub addrs: Vec<u32>,
}

/// The decoded fields of an inode record, as spec values.
pub ghost struct DinView {
    pub typ: u32,
    pub major: u32,
    pub minor: u32,
    pub nlink: u32,
    pub size: u32,
    pub addrs: Seq<u32>,
}

impl View for Dinode {
    type V = DinView;

    open spec fn view(&self) -> DinView {
        DinView {
            typ: self.typ,
            major: self.major,
            minor: self.minor,
            nlink: self.nlink,
            size: self.size,
            addrs: self.addrs@,
        }
    }
}

impl Dinode {
    pub open spec fn wf(&self) -> bool {
        self.addrs@.len() == NDIRECT + 1
    }

    /// A record with every field zero but the type tag: what a fresh
    /// allocation claims.
    pub fn fresh(typ: u32) -> (r: Dinode)
        ensures
            r.wf(),
            r@ == (DinView {
                typ,
                major: 0,
                minor: 0,
                nlink: 0,
                size: 0,
                addrs: Seq::new((NDIRECT + 1) as nat, |k: int| 0u32),
            }),
    {
        let mut addrs: Vec<u32> = Vec::new();
        let mut k: usize = 0;
        while k < NDIRECT + 1
            invariant
                k <= NDIRECT + 1,
                addrs@.len() == k,
                forall|j: int| 0 <= j < k ==> addrs@[j] == 0u32,
            decreases NDIRECT + 1 - k,
        {
            addrs.push(0u32);
            k += 1;
        }
        let r = Dinode { typ, major: 0, minor: 0, nlink: 0, size: 0, addrs };
        proof {
            assert(r@.addrs =~= Seq::new((NDIRECT + 1) as nat, |j: int| 0u32));
        }
        r
    }
}

/// The decoded record stored at byte offset `off` of an inode-region block.
pub open spec fn dinode_of(c: Seq<u8>, off: int) -> DinView {
    DinView {
        typ: le32(c, off),
        major: le32(c, off + 4),
        minor: le32(c, off + 8),
        nlink: le32(c, off + 12),
        size: le32(c, off + 16),
        addrs: Seq::new((NDIRECT + 1) as nat, |k: int| le32(c, off + 20 + 4 * k)),
    }
}

/// Geometry: inode `inum`'s block lies in the inode region, and its byte
/// offset fits the block.
pub proof fn lemma_iblock_range(sb: Superblock, inum: int)
    requires
        sb.wf(),
        0 <= inum < sb.ninodes,
    ensures
        sb.inodestart <= sb.iblock(inum) < sb.bmapstart,
        0 <= (inum % (IPB as int)) * DINODE_SIZE,
        (inum % (IPB as int)) * DINODE_SIZE + DINODE_SIZE <= BSIZE,
        sb.iblock(inum) < sb.dstart,
{
    lemma_mod_bound(inum, IPB as int);
    let q = inum / (IPB as int);
    lemma_div_pos_is_pos(inum, IPB as int);
    lemma_fundamental_div_mod(inum, IPB as int);
    lemma_div_multiples_vanish(q + 1, IPB as int);
    lemma_div_is_ordered((IPB as int) * (q + 1), sb.ninodes + IPB as int - 1, IPB as int);
}

/// A step that only changed blocks at or beyond the bitmap region leaves
/// every inode record as it was.
pub proof fn lemma_inode_frame_data_writes(pre: FileSystem, post: FileSystem)
    requires
        pre.wf(),
        post.spec_sb() == pre.spec_sb(),
        forall|t: u32| (t as int) < pre.spec_sb().bmapstart ==> post.at(t) == pre.at(t),
    ensures
        forall|i2: int|
            0 <= i2 < pre.spec_sb().ninodes ==> post.inode(i2) == pre.inode(i2),
{
    assert forall|i2: int|
        0 <= i2 < pre.spec_sb().ninodes implies post.inode(i2) == pre.inode(i2) by {
        lemma_iblock_range(pre.spec_sb(), i2);
        assert(post.at(pre.spec_sb().iblock(i2) as u32) == pre.at(
            pre.spec_sb().iblock(i2) as u32,
        ));
        assert(post.inode(i2).addrs =~= pre.inode(i2).addrs);
    }
}

impl FileSystem {
    /// The decoded on-disk record of inode `inum`, as the open group sees
    /// it.
    pub open spec fn inode(&self, inum: int) -> DinView {
        dinode_of(self.at(self.spec_sb().iblock(inum) as u32), (inum % (IPB as int)) * DINODE_SIZE)
    }

    /// Read inode `inum`'s on-disk record.
    pub fn read_inode(&self, inum: u32) -> (r: Dinode)
        requires
            self.wf(),
            inum < self.spec_sb().ninodes,
        ensures
            r.wf(),
            r@ == self.inode(inum as int),
    {
        proof {
            lemma_iblock_range(self.sb, inum as int);
        }
        let blk = self.read_block(self.sb.inodestart + (inum as usize / IPB) as u32);
        let off = (inum as usize % IPB) * DINODE_SIZE;
        let typ = blk.get_u32(off);
        let major = blk.get_u32(off + 4);
        let minor = blk.get_u32(off + 8);
        let nlink = blk.get_u32(off + 12);
        let size = blk.get_u32(off + 16);
        let mut addrs: Vec<u32> = Vec::new();
        let mut k: usize = 0;
        while k < NDIRECT + 1
            invariant
                self.wf(),
                inum < self.spec_sb().ninodes,
                k <= NDIRECT + 1,
                addrs@.len() == k,
                blk.wf(),
                blk@ == self.at(self.spec_sb().iblock(inum as int) as u32),
                off == (inum as int % (IPB as int)) * DINODE_SIZE,
                off + DINODE_SIZE <= BSIZE,
                forall|j: int| 0 <= j < k ==> addrs@[j] == le32(blk@, off + 20 + 4 * j),
            decreases NDIRECT + 1 - k,
        {
            addrs.push(blk.get_u32(off + 20 + 4 * k));
            k += 1;
        }
        let r = Dinode { typ, major, minor, nlink, size, addrs };
        proof {
            assert(r@.addrs =~= self.inode(inum as int).addrs);
        }
        r
    }

    /// Write inode `inum`'s on-disk record through the open transaction.
    /// Every other inode, and every other block of the view, is untouched.
    pub fn write_inode(&mut self, inum: u32, d: &Dinode)
        requires
            old(self).wf(),
            old(self).outstanding() > 0,
            old(self).room_for(1),
            inum < old(self).spec_sb().ninodes,
            d.wf(),
        ensures
            final(self).wf(),
            final(self).spec_sb() == old(self).spec_sb(),
            final(self).disk_view() == old(self).disk_view(),
            final(self).outstanding() == old(self).outstanding(),
            final(self).inode(inum as int) == d@,
            forall|i2: int|
                0 <= i2 < old(self).spec_sb().ninodes && i2 != inum ==> final(self).inode(i2)
                    == old(self).inode(i2),
            forall|t: u32|
                t as int != old(self).spec_sb().iblock(inum as int) ==> final(self).at(t) == old(
                    self,
                ).at(t),
            forall|b2: int|
                old(self).spec_sb().dstart <= b2 < old(self).spec_sb().size
                    ==> final(self).is_alloc(b2) == old(self).is_alloc(b2),
            final(self).recorded().len() <= old(self).recorded().len() + 1,
    {
        proof {
            lemma_iblock_range(self.sb, inum as int);
        }
        let iblk: u32 = self.sb.inodestart + (inum as usize / IPB) as u32;
        let off = (inum as usize % IPB) * DINODE_SIZE;
        let mut blk = self.read_block(iblk);
        blk.put_u32(off, d.typ);
        blk.put_u32(off + 4, d.major);
        blk.put_u32(off + 8, d.minor);
        blk.put_u32(off + 12, d.nlink);
        blk.put_u32(off + 16, d.size);
        let mut k: usize = 0;
        while k < NDIRECT + 1
            invariant
                self.wf(),
                *self == *old(self),
                inum < self.spec_sb().ninodes,
                k <= NDIRECT + 1,
                d.wf(),
                blk.wf(),
                iblk as int == self.spec_sb().iblock(inum as int),
                off == (inum as int % (IPB as int)) * DINODE_SIZE,
                off + DINODE_SIZE <= BSIZE,
                le32(blk@, off as int) == d.typ,
                le32(blk@, off + 4) == d.major,
                le32(blk@, off + 8) == d.minor,
                le32(blk@, off + 12) == d.nlink,
                le32(blk@, off + 16) == d.size,
                forall|j: int| 0 <= j < k ==> le32(blk@, off + 20 + 4 * j) == d.addrs@[j],
                forall|p: int|
                    0 <= p < BSIZE && !(off <= p < off + 20 + 4 * k) ==> blk@[p] == self.at(
                        iblk,
                    )[p],
            decreases NDIRECT + 1 - k,
        {
            blk.put_u32(off + 20 + 4 * k, d.addrs[k]);
            k += 1;
        }
        proof {
            assert(dinode_of(blk@, off as int) == d@) by {
                assert(dinode_of(blk@, off as int).addrs =~= d@.addrs);
            }
        }
        self.write_block(iblk, blk);
        proof {
            let sb = old(self).spec_sb();
            assert forall|i2: int|
                0 <= i2 < sb.ninodes && i2 != inum implies final(self).inode(i2) == old(
                self,
            ).inode(i2) by {
                lemma_iblock_range(sb, i2);
                if sb.iblock(i2) == sb.iblock(inum as int) {
                    let off2 = (i2 % (IPB as int)) * DINODE_SIZE;
                    lemma_fundamental_div_mod(i2, IPB as int);
                    lemma_fundamental_div_mod(inum as int, IPB as int);
                    lemma_mod_bound(i2, IPB as int);
                    lemma_mod_bound(inum as int, IPB as int);
                    assert(off2 + DINODE_SIZE <= off || off + DINODE_SIZE <= off2);
                    assert(final(self).inode(i2) == old(self).inode(i2)) by {
                        assert(final(self).inode(i2).addrs =~= old(self).inode(i2).addrs);
                    }
                }
            }
            assert forall|b2: int| sb.dstart <= b2 < sb.size implies final(self).is_alloc(b2)
                == old(self).is_alloc(b2) by {
                crate::bitmap::lemma_bblock_range(sb, b2);
            }
        }
    }

    /// Allocate a free on-disk inode: scan from inode 1 in ascending order,
    /// claim the first record whose type tag is free by writing `typ`, and
    /// return its number. Inode 0 is reserved as "no inode". With no free
    /// record the array is exhausted, which the caller must treat as
    /// unrecoverable.
    pub fn ialloc(&mut self, typ: u32) -> (r: Result<u32, FsError>)
        requires
            old(self).wf(),
            old(self).outstanding() > 0,
            old(self).room_for(1),
            typ != T_FREE,
        ensures
            final(self).wf(),
            final(self).spec_sb() == old(self).spec_sb(),
            final(self).disk_view() == old(self).disk_view(),
            final(self).outstanding() == old(self).outstanding(),
            match r {
                Ok(inum) => {
                    &&& 1 <= inum < old(self).spec_sb().ninodes
                    &&& old(self).inode(inum as int).typ == T_FREE
                    &&& forall|i2: int|
                        1 <= i2 < inum ==> old(self).inode(i2).typ != T_FREE
                    &&& final(self).inode(inum as int) == (DinView {
                        typ,
                        major: 0,
                        minor: 0,
                        nlink: 0,
                        size: 0,
                        addrs: Seq::new((NDIRECT + 1) as nat, |k: int| 0u32),
                    })
                    &&& forall|i2: int|
                        0 <= i2 < old(self).spec_sb().ninodes && i2 != inum ==> final(self).inode(
                            i2,
                        ) == old(self).inode(i2)
                    &&& forall|b2: int|
                        old(self).spec_sb().dstart <= b2 < old(self).spec_sb().size
                            ==> final(self).is_alloc(b2) == old(self).is_alloc(b2)
                    &&& final(self).recorded().len() <= old(self).recorded().len() + 1
                },
                Err(e) => {
                    &&& e == FsError::OutOfInodes
                    &&& forall|i2: int|
                        1 <= i2 < old(self).spec_sb().ninodes ==> old(self).inode(i2).typ
                            != T_FREE
                    &&& *final(self) == *old(self)
                },
            },
    {
        let mut inum: u32 = 1;
        while inum < self.sb.ninodes
            invariant
                self.wf(),
                *self == *old(self),
                old(self).outstanding() > 0,
                old(self).room_for(1),
                typ != T_FREE,
                1 <= inum <= self.spec_sb().ninodes,
                forall|i2: int| 1 <= i2 < inum ==> old(self).inode(i2).typ != T_FREE,
            decreases self.sb.ninodes - inum,
        {
            let d = self.read_inode(inum);
            if d.typ == T_FREE {
                let nd = Dinode::fresh(typ);
                self.write_inode(inum, &nd);
                return Ok(inum);
            }
            inum += 1;
        }
        Err(FsError::OutOfInodes)
    }

    /// The disk block that holds file block `bn` of inode `inum`: a direct
    /// pointer, or an entry of the indirect block. Zero means "no block".
    pub open spec fn fblock_ptr(&self, inum: int, bn: int) -> u32 {
        if bn < NDIRECT {
            self.inode(inum).addrs[bn]
        } else if self.inode(inum).addrs[NDIRECT as int] == 0 {
            0
        } else {
            le32(self.at(self.inode(inum).addrs[NDIRECT as int] as u32), 4 * (bn - NDIRECT))
        }
    }

    /// Byte `p` of the file held by inode `inum`: a hole (pointer zero)
    /// reads as zero.
    pub open spec fn file_byte(&self, inum: int, p: int) -> u8 {
        let ptr = self.fblock_ptr(inum, p / (BSIZE as int));
        if ptr == 0 {
            0u8
        } else {
            self.at(ptr)[p % (BSIZE as int)]
        }
    }

    /// A stored pointer the geometry cannot admit: file block `bn`'s
    /// pointer, or the indirect pointer it goes through, is nonzero and
    /// outside the data region.
    pub open spec fn ptr_bad(&self, inum: int, bn: int) -> bool {
        let ind = self.inode(inum).addrs[NDIRECT as int];
        let p = self.fblock_ptr(inum, bn);
        ||| (bn >= NDIRECT && ind != 0 && !(self.spec_sb().dstart <= ind < self.spec_sb().size))
        ||| (p != 0 && !(self.spec_sb().dstart <= p < self.spec_sb().size))
    }

    /// A stored pointer the bitmap does not back: file block `bn`'s
    /// pointer, or the indirect pointer it goes through, names a data block
    /// whose bitmap bit is clear.
    pub open spec fn ptr_unbacked(&self, inum: int, bn: int) -> bool {
        let ind = self.inode(inum).addrs[NDIRECT as int];
        let p = self.fblock_ptr(inum, bn);
        ||| (bn >= NDIRECT && ind != 0 && self.spec_sb().dstart <= ind < self.spec_sb().size
            && !self.is_alloc(ind as int))
        ||| (p != 0 && self.spec_sb().dstart <= p < self.spec_sb().size && !self.is_alloc(
            p as int,
        ))
    }

    /// File block `bn`'s pointer is sound: a hole, or an allocated data
    /// block, reached through a sound indirect pointer, and distinct from
    /// the indirect block itself.
    pub open spec fn fblock_sound(&self, inum: int, bn: int) -> bool {
        &&& !self.ptr_bad(inum, bn)
        &&& !self.ptr_unbacked(inum, bn)
        &&& (self.fblock_ptr(inum, bn) == 0 || self.fblock_ptr(inum, bn) != self.inode(
            inum,
        ).addrs[NDIRECT as int])
    }

    /// Map file block `bn` of inode `inum` to a disk block, allocating the
    /// data block, and the indirect block if needed, on first use. A stored
    /// pointer outside the data region or without its bitmap bit set is an
    /// invariant violation and is reported; a full device surfaces as an
    /// unrecoverable allocation failure.
    #[verifier::rlimit(100)]
    pub fn bmap(&mut self, inum: u32, bn: u32) -> (r: Result<u32, FsError>)
        requires
            old(self).wf(),
            old(self).outstanding() > 0,
            old(self).room_for(7),
            inum < old(self).spec_sb().ninodes,
            bn < MAXFILE,
        ensures
            final(self).wf(),
            final(self).spec_sb() == old(self).spec_sb(),
            final(self).disk_view() == old(self).disk_view(),
            final(self).outstanding() == old(self).outstanding(),
            final(self).recorded().len() <= old(self).recorded().len() + 6,
            final(self).inode(inum as int).typ == old(self).inode(inum as int).typ,
            final(self).inode(inum as int).major == old(self).inode(inum as int).major,
            final(self).inode(inum as int).minor == old(self).inode(inum as int).minor,
            final(self).inode(inum as int).nlink == old(self).inode(inum as int).nlink,
            final(self).inode(inum as int).size == old(self).inode(inum as int).size,
            forall|i2: int|
                0 <= i2 < old(self).spec_sb().ninodes && i2 != inum ==> final(self).inode(i2)
                    == old(self).inode(i2),
            match r {
                Ok(b) => {
                    &&& old(self).spec_sb().dstart <= b < old(self).spec_sb().size
                    &&& b != 0
                    &&& final(self).fblock_ptr(inum as int, bn as int) == b
                    &&& final(self).is_alloc(b as int)
                },
                Err(e) => e == FsError::OutOfBlocks || e == FsError::BlockOutOfRange,
            },
            // The errors only on their actual conditions: exhaustion, or a
            // stored pointer the disk state cannot admit.
            r == Result::<u32, FsError>::Err(FsError::OutOfBlocks) ==> forall|b2: int|
                old(self).spec_sb().dstart <= b2 < old(self).spec_sb().size
                    ==> final(self).is_alloc(b2),
            r == Result::<u32, FsError>::Err(FsError::BlockOutOfRange) ==> old(self).ptr_bad(
                inum as int,
                bn as int,
            ) || old(self).ptr_unbacked(inum as int, bn as int),
            r == Result::<u32, FsError>::Err(FsError::BlockOutOfRange) ==> *final(self) == *old(
                self,
            ),
            // Success owed, and nothing changed, when the mapping exists.
            ({
                let p = old(self).fblock_ptr(inum as int, bn as int);
                p != 0 && !old(self).ptr_bad(inum as int, bn as int) && !old(self).ptr_unbacked(
                    inum as int,
                    bn as int,
                ) ==> r == Result::<u32, FsError>::Ok(p) && *final(self) == *old(self)
            }),
            // Frames: marked blocks stay marked, nonzero pointers stay,
            // marked blocks other than the indirect keep their content, and
            // every other sound file block keeps its pointer.
            forall|b2: int|
                old(self).spec_sb().dstart <= b2 < old(self).spec_sb().size
                    && old(self).is_alloc(b2) ==> final(self).is_alloc(b2),
            forall|k: int|
                0 <= k < NDIRECT + 1 && old(self).inode(inum as int).addrs[k] != 0
                    ==> final(self).inode(inum as int).addrs[k] == old(self).inode(
                    inum as int,
                ).addrs[k],
            forall|t: u32|
                old(self).spec_sb().dstart <= t < old(self).spec_sb().size && old(self).is_alloc(
                    t as int,
                ) && t != old(self).inode(inum as int).addrs[NDIRECT as int] ==> final(self).at(t)
                    == old(self).at(t),
            forall|bn2: int|
                0 <= bn2 < MAXFILE && bn2 != bn && !old(self).ptr_bad(inum as int, bn2) && !old(
                    self,
                ).ptr_unbacked(inum as int, bn2) ==> final(self).fblock_ptr(inum as int, bn2)
                    == old(self).fblock_ptr(inum as int, bn2),
            r is Ok && bn >= NDIRECT ==> ({
                let ind = final(self).inode(inum as int).addrs[NDIRECT as int];
                ind != 0 && old(self).spec_sb().dstart <= ind < old(self).spec_sb().size
                    && final(self).is_alloc(ind as int)
            }),
            r is Ok && bn >= NDIRECT && old(self).inode(inum as int).addrs[NDIRECT as int] == 0
                ==> !old(self).is_alloc(
                final(self).inode(inum as int).addrs[NDIRECT as int] as int,
            ),
            bn < NDIRECT ==> final(self).inode(inum as int).addrs[NDIRECT as int] == old(
                self,
            ).inode(inum as int).addrs[NDIRECT as int],
    {
        let ghost sb = old(self).spec_sb();
        let d = self.read_inode(inum);
        if (bn as usize) < NDIRECT {
            let a = d.addrs[bn as usize];
            if a != 0 {
                if a < self.sb.dstart || a >= self.sb.size {
                    return Err(FsError::BlockOutOfRange);
                }
                if !self.check_alloc(a) {
                    return Err(FsError::BlockOutOfRange);
                }
                return Ok(a);
            }
            let b = match self.balloc() {
                Ok(b) => b,
                Err(e) => {
                    return Err(e);
                },
            };
            let ghost sa = *self;
            proof {
                lemma_inode_frame_data_writes(*old(self), sa);
                crate::bitmap::lemma_bblock_range(sb, b as int);
            }
            let mut nd = self.read_inode(inum);
            nd.addrs.set(bn as usize, b);
            self.write_inode(inum, &nd);
            proof {
                lemma_iblock_range(sb, inum as int);
                assert(final(self).inode(inum as int).addrs =~= old(self).inode(
                    inum as int,
                ).addrs.update(bn as int, b));
                assert forall|t: u32|
                    sb.dstart <= t < sb.size && old(self).is_alloc(t as int) && t != old(
                    self,
                ).inode(inum as int).addrs[NDIRECT as int] implies final(self).at(t) == old(
                    self,
                ).at(t) by {
                    assert(t != b);
                    assert(sa.at(t) == old(self).at(t));
                    assert(final(self).at(t) == sa.at(t));
                }
                assert forall|bn2: int|
                    0 <= bn2 < MAXFILE && bn2 != bn && !old(self).ptr_bad(inum as int, bn2)
                        && !old(self).ptr_unbacked(inum as int, bn2) implies final(self).fblock_ptr(inum as int, bn2) == old(self).fblock_ptr(inum as int, bn2) by {
                    if bn2 >= NDIRECT {
                        let ind0 = old(self).inode(inum as int).addrs[NDIRECT as int];
                        if ind0 != 0 {
                            assert(ind0 != b);
                            assert(sa.at(ind0 as u32) == old(self).at(ind0 as u32));
                            assert(final(self).at(ind0 as u32) == sa.at(ind0 as u32));
                        }
                    }
                }
            }
            return Ok(b);
        }
        self.bmap_indirect(inum, bn)
    }

    /// The indirect half of the mapping: reach file block `bn` through the
    /// indirect block, allocating it, and the data block, on first use.
    #[verifier::rlimit(100)]
    fn bmap_indirect(&mut self, inum: u32, bn: u32) -> (r: Result<u32, FsError>)
        requires
            old(self).wf(),
            old(self).outstanding() > 0,
            old(self).room_for(7),
            inum < old(self).spec_sb().ninodes,
            NDIRECT <= bn < MAXFILE,
        ensures
            final(self).wf(),
            final(self).spec_sb() == old(self).spec_sb(),
            final(self).disk_view() == old(self).disk_view(),
            final(self).outstanding() == old(self).outstanding(),
            final(self).recorded().len() <= old(self).recorded().len() + 6,
            final(self).inode(inum as int).typ == old(self).inode(inum as int).typ,
            final(self).inode(inum as int).major == old(self).inode(inum as int).major,
            final(self).inode(inum as int).minor == old(self).inode(inum as int).minor,
            final(self).inode(inum as int).nlink == old(self).inode(inum as int).nlink,
            final(self).inode(inum as int).size == old(self).inode(inum as int).size,
            forall|i2: int|
                0 <= i2 < old(self).spec_sb().ninodes && i2 != inum ==> final(self).inode(i2)
                    == old(self).inode(i2),
            match r {
                Ok(b) => {
                    &&& old(self).spec_sb().dstart <= b < old(self).spec_sb().size
                    &&& b != 0
                    &&& final(self).fblock_ptr(inum as int, bn as int) == b
                    &&& final(self).is_alloc(b as int)
                },
                Err(e) => e == FsError::OutOfBlocks || e == FsError::BlockOutOfRange,
            },
            // The errors only on their actual conditions: exhaustion, or a
            // stored pointer the disk state cannot admit.
            r == Result::<u32, FsError>::Err(FsError::OutOfBlocks) ==> forall|b2: int|
                old(self).spec_sb().dstart <= b2 < old(self).spec_sb().size
                    ==> final(self).is_alloc(b2),
            r == Result::<u32, FsError>::Err(FsError::BlockOutOfRange) ==> old(self).ptr_bad(
                inum as int,
                bn as int,
            ) || old(self).ptr_unbacked(inum as int, bn as int),
            r == Result::<u32, FsError>::Err(FsError::BlockOutOfRange) ==> *final(self) == *old(
                self,
            ),
            // Success owed, and nothing changed, when the mapping exists.
            ({
                let p = old(self).fblock_ptr(inum as int, bn as int);
                p != 0 && !old(self).ptr_bad(inum as int, bn as int) && !old(self).ptr_unbacked(
                    inum as int,
                    bn as int,
                ) ==> r == Result::<u32, FsError>::Ok(p) && *final(self) == *old(self)
            }),
            // Frames: marked blocks stay marked, nonzero pointers stay,
            // marked blocks other than the indirect keep their content, and
            // every other sound file block keeps its pointer.
            forall|b2: int|
                old(self).spec_sb().dstart <= b2 < old(self).spec_sb().size
                    && old(self).is_alloc(b2) ==> final(self).is_alloc(b2),
            forall|k: int|
                0 <= k < NDIRECT + 1 && old(self).inode(inum as int).addrs[k] != 0
                    ==> final(self).inode(inum as int).addrs[k] == old(self).inode(
                    inum as int,
                ).addrs[k],
            forall|t: u32|
                old(self).spec_sb().dstart <= t < old(self).spec_sb().size && old(self).is_alloc(
                    t as int,
                ) && t != old(self).inode(inum as int).addrs[NDIRECT as int] ==> final(self).at(t)
                    == old(self).at(t),
            forall|bn2: int|
                0 <= bn2 < MAXFILE && bn2 != bn && !old(self).ptr_bad(inum as int, bn2) && !old(
                    self,
                ).ptr_unbacked(inum as int, bn2) ==> final(self).fblock_ptr(inum as int, bn2)
                    == old(self).fblock_ptr(inum as int, bn2),
            r is Ok && bn >= NDIRECT ==> ({
                let ind = final(self).inode(inum as int).addrs[NDIRECT as int];
                ind != 0 && old(self).spec_sb().dstart <= ind < old(self).spec_sb().size
                    && final(self).is_alloc(ind as int)
            }),
            r is Ok && bn >= NDIRECT && old(self).inode(inum as int).addrs[NDIRECT as int] == 0
                ==> !old(self).is_alloc(
                final(self).inode(inum as int).addrs[NDIRECT as int] as int,
            ),
            bn < NDIRECT ==> final(self).inode(inum as int).addrs[NDIRECT as int] == old(
                self,
            ).inode(inum as int).addrs[NDIRECT as int],
    {
        let ghost sb = old(self).spec_sb();
        let d = self.read_inode(inum);
        // Indirect range.
        let ibn = bn as usize - NDIRECT;
        let ghost s0 = *self;
        let mut ind = d.addrs[NDIRECT];
        let ghost fresh_ind = ind == 0;
        if ind == 0 {
            let b = match self.balloc() {
                Ok(b) => b,
                Err(e) => {
                    return Err(e);
                },
            };
            let ghost sa = *self;
            proof {
                lemma_inode_frame_data_writes(s0, sa);
                crate::bitmap::lemma_bblock_range(sb, b as int);
            }
            let mut nd = self.read_inode(inum);
            nd.addrs.set(NDIRECT, b);
            self.write_inode(inum, &nd);
            ind = b;
            proof {
                lemma_iblock_range(sb, inum as int);
                assert(self.inode(inum as int).addrs =~= s0.inode(inum as int).addrs.update(
                    NDIRECT as int,
                    b,
                ));
                assert(self.at(b) == zero_block());
                assert forall|t: u32|
                    sb.dstart <= t < sb.size && s0.is_alloc(t as int) implies self.at(t) == s0.at(
                    t,
                ) by {
                    assert(t != b);
                    assert(sa.at(t) == s0.at(t));
                    assert(self.at(t) == sa.at(t));
                }
            }
        } else {
            if ind < self.sb.dstart || ind >= self.sb.size {
                return Err(FsError::BlockOutOfRange);
            }
            if !self.check_alloc(ind) {
                return Err(FsError::BlockOutOfRange);
            }
        }
        let ghost s1 = *self;
        let iblk = self.read_block(ind);
        let entry = iblk.get_u32(4 * ibn);
        proof {
            if fresh_ind {
                crate::block::lemma_le32_zero(iblk@, 4 * (ibn as int));
            }
        }
        if entry != 0 {
            proof {
                assert(!fresh_ind);
                assert(old(self).fblock_ptr(inum as int, bn as int) == entry);
            }
            if entry < self.sb.dstart || entry >= self.sb.size {
                return Err(FsError::BlockOutOfRange);
            }
            if !self.check_alloc(entry) {
                return Err(FsError::BlockOutOfRange);
            }
            return Ok(entry);
        }
        let b = match self.balloc() {
            Ok(b) => b,
            Err(e) => {
                return Err(e);
            },
        };
        let ghost s2 = *self;
        proof {
            lemma_inode_frame_data_writes(s1, s2);
            crate::bitmap::lemma_bblock_range(sb, b as int);
        }
        let mut niblk = self.read_block(ind);
        niblk.put_u32(4 * ibn, b);
        self.write_block(ind, niblk);
        proof {
            assert forall|t: u32| (t as int) < sb.bmapstart implies final(self).at(t) == s1.at(
                t,
            ) by {
                assert(final(self).at(t) == s2.at(t));
                assert(s2.at(t) == s1.at(t));
            }
            lemma_inode_frame_data_writes(s1, *final(self));
            assert(final(self).inode(inum as int) == s1.inode(inum as int));
            assert(final(self).inode(inum as int).addrs[NDIRECT as int] == ind);
            assert(le32(final(self).at(ind), 4 * (bn as int - NDIRECT)) == b);
            // The installs of this path touch only the fresh data block,
            // bitmap blocks, the inode block and the indirect block.
            assert forall|b2: int|
                sb.dstart <= b2 < sb.size && old(self).is_alloc(b2) implies final(self).is_alloc(
                b2,
            ) by {
                crate::bitmap::lemma_bblock_range(sb, b2);
            }
            assert forall|t: u32|
                sb.dstart <= t < sb.size && old(self).is_alloc(t as int) && t != old(self).inode(
                inum as int,
            ).addrs[NDIRECT as int] implies final(self).at(t) == old(self).at(t) by {
                lemma_iblock_range(sb, inum as int);
                assert(t != b);
                assert(t != ind);
                assert(s2.at(t) == s1.at(t));
                assert(s1.at(t) == old(self).at(t));
            }
            assert forall|bn2: int|
                0 <= bn2 < MAXFILE && bn2 != bn && !old(self).ptr_bad(inum as int, bn2) && !old(
                    self,
                ).ptr_unbacked(inum as int, bn2) implies final(self).fblock_ptr(inum as int, bn2)
                == old(self).fblock_ptr(inum as int, bn2) by {
                lemma_iblock_range(sb, inum as int);
                if bn2 >= NDIRECT {
                    let ibn2 = bn2 - NDIRECT;
                    vstd::arithmetic::div_mod::lemma_fundamental_div_mod_converse(
                        4 * ibn2,
                        4,
                        ibn2,
                        0,
                    );
                    if fresh_ind {
                        // The fresh indirect block is zero but for the new
                        // entry, so every other file block stays a hole.
                        assert(old(self).fblock_ptr(inum as int, bn2) == 0);
                        assert(s1.at(ind)[4 * ibn2] == 0 && s1.at(ind)[4 * ibn2 + 1] == 0 && s1.at(
                            ind,
                        )[4 * ibn2 + 2] == 0 && s1.at(ind)[4 * ibn2 + 3] == 0);
                        assert(final(self).at(ind)[4 * ibn2] == 0 && final(self).at(ind)[4 * ibn2
                            + 1] == 0 && final(self).at(ind)[4 * ibn2 + 2] == 0 && final(self).at(
                            ind,
                        )[4 * ibn2 + 3] == 0);
                        crate::block::lemma_le32_zero(final(self).at(ind), 4 * ibn2);
                    } else {
                        assert(ind != b);
                        assert(s2.at(ind) == s1.at(ind));
                        assert(le32(final(self).at(ind), 4 * ibn2) == le32(s1.at(ind), 4 * ibn2));
                    }
                }
            }
        }
        Ok(b)
    }

    /// Metadata of inode `inum`: its type tag, link count and size, read
    /// without touching the file's data blocks.
    pub fn stati(&self, inum: u32) -> (r: (u32, u32, u32))
        requires
            self.wf(),
            inum < self.spec_sb().ninodes,
        ensures
            r.0 == self.inode(inum as int).typ,
            r.1 == self.inode(inum as int).nlink,
            r.2 == self.inode(inum as int).size,
    {
        let d = self.read_inode(inum);
        (d.typ, d.nlink, d.size)
    }

    /// Truncate inode `inum` to size zero: free every direct block, every
    /// block named by the indirect block, and the indirect block itself,
    /// then write the record back with all pointers cleared. A pointer
    /// whose bitmap bit is already clear, or one outside the data region,
    /// is an accounting violation and is reported; the record is then left
    /// as it was.
    pub fn itrunc(&mut self, inum: u32) -> (r: Result<(), FsError>)
        requires
            old(self).wf(),
            old(self).outstanding() > 0,
            inum < old(self).spec_sb().ninodes,
        ensures
            final(self).wf(),
            final(self).spec_sb() == old(self).spec_sb(),
            final(self).disk_view() == old(self).disk_view(),
            final(self).outstanding() == old(self).outstanding(),
            forall|i2: int|
                0 <= i2 < old(self).spec_sb().ninodes && i2 != inum ==> final(self).inode(i2)
                    == old(self).inode(i2),
            r is Ok ==> {
                &&& final(self).inode(inum as int).size == 0
                &&& forall|k: int|
                    0 <= k < NDIRECT + 1 ==> final(self).inode(inum as int).addrs[k] == 0
                &&& final(self).inode(inum as int).typ == old(self).inode(inum as int).typ
                &&& final(self).inode(inum as int).nlink == old(self).inode(inum as int).nlink
                &&& forall|k: int|
                    0 <= k < NDIRECT && old(self).inode(inum as int).addrs[k] != 0
                        ==> !final(self).is_alloc(old(self).inode(inum as int).addrs[k] as int)
                &&& (old(self).inode(inum as int).addrs[NDIRECT as int] != 0
                    ==> !final(self).is_alloc(
                    old(self).inode(inum as int).addrs[NDIRECT as int] as int,
                ))
            },
            !(r is Ok) ==> final(self).inode(inum as int) == old(self).inode(inum as int),
            match r {
                Ok(()) => true,
                Err(e) => e == FsError::TransactionTooLarge || e == FsError::FreeingFreeBlock
                    || e == FsError::BlockOutOfRange,
            },
    {
        let ghost sb = old(self).spec_sb();
        let cap = self.sb.nlog as usize - 1;
        let d = self.read_inode(inum);
        let mut k: usize = 0;
        while k < NDIRECT
            invariant
                self.wf(),
                self.spec_sb() == sb,
                sb == old(self).spec_sb(),
                self.disk_view() == old(self).disk_view(),
                self.outstanding() == old(self).outstanding(),
                self.outstanding() > 0,
                inum < sb.ninodes,
                cap == self.spec_log().capacity(),
                k <= NDIRECT,
                d.wf(),
                self.inode(inum as int) == old(self).inode(inum as int),
                d@ == old(self).inode(inum as int),
                forall|i2: int|
                    0 <= i2 < sb.ninodes && i2 != inum ==> self.inode(i2) == old(self).inode(
                        i2,
                    ),
                forall|k2: int|
                    0 <= k2 < k && old(self).inode(inum as int).addrs[k2] != 0 ==> sb.dstart
                        <= old(self).inode(inum as int).addrs[k2] < sb.size && !self.is_alloc(
                        old(self).inode(inum as int).addrs[k2] as int,
                    ),
            decreases NDIRECT - k,
        {
            let a = d.addrs[k];
            if a != 0 {
                if self.log.group_len() + 1 > cap {
                    return Err(FsError::TransactionTooLarge);
                }
                let ghost pre = *self;
                match self.bfree(a) {
                    Ok(()) => {},
                    Err(e) => {
                        return Err(e);
                    },
                }
                proof {
                    crate::bitmap::lemma_bblock_range(sb, a as int);
                    assert forall|t: u32| (t as int) < sb.bmapstart implies self.at(t) == pre.at(
                        t,
                    ) by {}
                    lemma_inode_frame_data_writes(pre, *self);
                }
            }
            k += 1;
        }
        let ind = d.addrs[NDIRECT];
        if ind != 0 {
            if ind < self.sb.dstart || ind >= self.sb.size {
                return Err(FsError::BlockOutOfRange);
            }
            let ib = self.read_block(ind);
            let mut j: usize = 0;
            while j < NINDIRECT
                invariant
                    self.wf(),
                    self.spec_sb() == sb,
                    sb == old(self).spec_sb(),
                    self.disk_view() == old(self).disk_view(),
                    self.outstanding() == old(self).outstanding(),
                    self.outstanding() > 0,
                    inum < sb.ninodes,
                    cap == self.spec_log().capacity(),
                    j <= NINDIRECT,
                    ib.wf(),
                    self.inode(inum as int) == old(self).inode(inum as int),
                    forall|i2: int|
                        0 <= i2 < sb.ninodes && i2 != inum ==> self.inode(i2) == old(self).inode(
                            i2,
                        ),
                    forall|k2: int|
                        0 <= k2 < NDIRECT && old(self).inode(inum as int).addrs[k2] != 0
                            ==> sb.dstart <= old(self).inode(inum as int).addrs[k2] < sb.size
                            && !self.is_alloc(old(self).inode(inum as int).addrs[k2] as int),
                decreases NINDIRECT - j,
            {
                let a = ib.get_u32(4 * j);
                if a != 0 {
                    if self.log.group_len() + 1 > cap {
                        return Err(FsError::TransactionTooLarge);
                    }
                    let ghost pre = *self;
                    match self.bfree(a) {
                        Ok(()) => {},
                        Err(e) => {
                            return Err(e);
                        },
                    }
                    proof {
                        crate::bitmap::lemma_bblock_range(sb, a as int);
                        assert forall|t: u32| (t as int) < sb.bmapstart implies self.at(t)
                            == pre.at(t) by {}
                        lemma_inode_frame_data_writes(pre, *self);
                    }
                }
                j += 1;
            }
            if self.log.group_len() + 1 > cap {
                return Err(FsError::TransactionTooLarge);
            }
            let ghost pre = *self;
            match self.bfree(ind) {
                Ok(()) => {},
                Err(e) => {
                    return Err(e);
                },
            }
            proof {
                crate::bitmap::lemma_bblock_range(sb, ind as int);
                assert forall|t: u32| (t as int) < sb.bmapstart implies self.at(t) == pre.at(
                    t,
                ) by {}
                lemma_inode_frame_data_writes(pre, *self);
            }
        }
        if self.log.group_len() + 1 > cap {
            return Err(FsError::TransactionTooLarge);
        }
        let mut nd = Dinode::fresh(d.typ);
        nd.major = d.major;
        nd.minor = d.minor;
        nd.nlink = d.nlink;
        self.write_inode(inum, &nd);
        Ok(())
    }

    /// Read up to `n` bytes of inode `inum`'s file starting at byte `off`,
    /// clamped to the file's current size. Holes read as zero. Reading
    /// never mutates anything: lazily allocating hole blocks is left to the
    /// write path.
    pub fn readi(&self, inum: u32, off: u32, n: u32) -> (r: Result<Vec<u8>, FsError>)
        requires
            self.wf(),
            inum < self.spec_sb().ninodes,
        ensures
            r == Result::<Vec<u8>, FsError>::Err(FsError::FileTooLarge) <==> (off
                > self.inode(inum as int).size || off as int + spec_min(
                n as int,
                self.inode(inum as int).size - off,
            ) > MAXFILE * BSIZE),
            match r {
                Ok(v) => {
                    &&& v@.len() == spec_min(n as int, self.inode(inum as int).size - off)
                    &&& forall|k: int|
                        0 <= k < v@.len() ==> v@[k] == self.file_byte(inum as int, off + k)
                },
                Err(e) => e == FsError::FileTooLarge || e == FsError::BlockOutOfRange,
            },
            r == Result::<Vec<u8>, FsError>::Err(FsError::BlockOutOfRange) ==> exists|bn2: int|
                0 <= bn2 < MAXFILE && self.ptr_bad(inum as int, bn2),
    {
        let d = self.read_inode(inum);
        if off > d.size {
            return Err(FsError::FileTooLarge);
        }
        let mut cnt = n as usize;
        if off as u64 + cnt as u64 > d.size as u64 {
            cnt = (d.size - off) as usize;
        }
        if off as u64 + cnt as u64 > (MAXFILE * BSIZE) as u64 {
            return Err(FsError::FileTooLarge);
        }
        let mut v: Vec<u8> = Vec::new();
        let mut k: usize = 0;
        while k < cnt
            invariant
                self.wf(),
                inum < self.spec_sb().ninodes,
                k <= cnt,
                off as int + cnt <= MAXFILE * BSIZE,
                cnt == spec_min(n as int, self.inode(inum as int).size - off),
                v@.len() == k,
                forall|j: int| 0 <= j < k ==> v@[j] == self.file_byte(inum as int, off + j),
            decreases cnt - k,
        {
            let pos = off as usize + k;
            let bn = pos / BSIZE;
            proof {
                lemma_div_pos_is_pos(pos as int, BSIZE as int);
                lemma_div_is_ordered(pos as int, MAXFILE * BSIZE - 1, BSIZE as int);
                lemma_mod_bound(pos as int, BSIZE as int);
            }
            let d2 = self.read_inode(inum);
            let ptr: u32 = if bn < NDIRECT {
                d2.addrs[bn]
            } else {
                let ind = d2.addrs[NDIRECT];
                if ind == 0 {
                    0u32
                } else {
                    if ind < self.sb.dstart || ind >= self.sb.size {
                        proof {
                            assert(self.ptr_bad(inum as int, bn as int));
                        }
                        return Err(FsError::BlockOutOfRange);
                    }
                    let ib = self.read_block(ind);
                    ib.get_u32(4 * (bn - NDIRECT))
                }
            };
            if ptr == 0 {
                proof {
                    assert(self.file_byte(inum as int, off + k) == 0u8);
                }
                v.push(0u8);
            } else {
                if ptr < self.sb.dstart || ptr >= self.sb.size {
                    proof {
                        assert(ptr == self.fblock_ptr(inum as int, bn as int));
                        assert(self.ptr_bad(inum as int, bn as int));
                    }
                    return Err(FsError::BlockOutOfRange);
                }
                let blk = self.read_block(ptr);
                let byte = blk.get(pos % BSIZE);
                proof {
                    assert(self.file_byte(inum as int, off + k) == byte);
                }
                v.push(byte);
            }
            k += 1;
        }
        Ok(v)
    }

    /// Write `data` into inode `inum`'s file at byte `off`, allocating data
    /// blocks and the indirect block as needed, growing the recorded size
    /// if the write extends the file, and landing every byte of `data` in
    /// the file's content. Writing past the current size (leaving a gap) or
    /// past the maximum file size fails up front and changes nothing; a
    /// full device or a stored pointer the disk state cannot admit is
    /// reported, and the size is then still the old one.
    #[verifier::rlimit(100)]
    pub fn writei(&mut self, inum: u32, off: u32, data: &Vec<u8>) -> (r: Result<(), FsError>)
        requires
            old(self).wf(),
            old(self).outstanding() > 0,
            inum < old(self).spec_sb().ninodes,
            off <= old(self).inode(inum as int).size && off as int + data@.len() <= MAXFILE
                * BSIZE ==> old(self).recorded().len() + 8 * spanned_blocks(
                off as int,
                data@.len() as int,
            ) + 1 <= old(self).spec_log().capacity(),
        ensures
            final(self).wf(),
            final(self).spec_sb() == old(self).spec_sb(),
            final(self).disk_view() == old(self).disk_view(),
            final(self).outstanding() == old(self).outstanding(),
            r == Result::<(), FsError>::Err(FsError::FileTooLarge) <==> (off > old(self).inode(
                inum as int,
            ).size || off as int + data@.len() > MAXFILE * BSIZE),
            r == Result::<(), FsError>::Err(FsError::FileTooLarge) ==> *final(self) == *old(self),
            r is Ok ==> final(self).inode(inum as int).size as int == spec_max(
                old(self).inode(inum as int).size as int,
                off as int + data@.len(),
            ),
            r is Ok ==> forall|k: int|
                0 <= k < data@.len() ==> final(self).file_byte(inum as int, off + k) == data@[k],
            !(r is Ok) ==> final(self).inode(inum as int).size == old(self).inode(
                inum as int,
            ).size,
            final(self).inode(inum as int).typ == old(self).inode(inum as int).typ,
            final(self).inode(inum as int).major == old(self).inode(inum as int).major,
            final(self).inode(inum as int).minor == old(self).inode(inum as int).minor,
            final(self).inode(inum as int).nlink == old(self).inode(inum as int).nlink,
            forall|i2: int|
                0 <= i2 < old(self).spec_sb().ninodes && i2 != inum ==> final(self).inode(i2)
                    == old(self).inode(i2),
            r == Result::<(), FsError>::Err(FsError::OutOfBlocks) ==> forall|b2: int|
                old(self).spec_sb().dstart <= b2 < old(self).spec_sb().size
                    ==> final(self).is_alloc(b2),
            r == Result::<(), FsError>::Err(FsError::BlockOutOfRange) ==> (exists|bn2: int|
                0 <= bn2 < MAXFILE && !final(self).fblock_sound(inum as int, bn2)) || (exists|x: int, y: int|
                0 <= x < y < MAXFILE && final(self).fblock_ptr(inum as int, x) != 0
                    && final(self).fblock_ptr(inum as int, x) == final(self).fblock_ptr(
                    inum as int,
                    y,
                )),
            match r {
                Ok(()) => true,
                Err(e) => e == FsError::FileTooLarge || e == FsError::OutOfBlocks || e
                    == FsError::BlockOutOfRange,
            },
    {
        let ghost sb = old(self).spec_sb();
        let ghost old_len = old(self).recorded().len() as int;
        let ghost spanned = spanned_blocks(off as int, data@.len() as int);
        let n = data.len();
        let d = self.read_inode(inum);
        if n > MAXFILE * BSIZE {
            return Err(FsError::FileTooLarge);
        }
        if off > d.size || off as u64 + n as u64 > (MAXFILE * BSIZE) as u64 {
            return Err(FsError::FileTooLarge);
        }
        let ghost firstbn = off as int / (BSIZE as int);
        let mut written: Vec<u32> = Vec::new();
        let mut tot: usize = 0;
        while tot < n
            invariant
                self.wf(),
                self.spec_sb() == sb,
                sb == old(self).spec_sb(),
                old_len == old(self).recorded().len() as int,
                off <= old(self).inode(inum as int).size,
                self.disk_view() == old(self).disk_view(),
                self.outstanding() == old(self).outstanding(),
                self.outstanding() > 0,
                inum < sb.ninodes,
                tot <= n,
                n == data@.len(),
                n <= MAXFILE * BSIZE,
                off as int + n <= MAXFILE * BSIZE,
                old_len + 8 * spanned + 1 <= self.spec_log().capacity(),
                spanned == spanned_blocks(off as int, n as int),
                firstbn == off as int / (BSIZE as int),
                self.recorded().len() <= old_len + 7 * written@.len(),
                written@.len() <= spanned,
                tot < n ==> (off as int + tot) / (BSIZE as int) == firstbn + written@.len(),
                tot > 0 ==> (off as int + tot - 1) / (BSIZE as int) == firstbn + written@.len()
                    - 1,
                self.inode(inum as int).typ == old(self).inode(inum as int).typ,
                self.inode(inum as int).major == old(self).inode(inum as int).major,
                self.inode(inum as int).minor == old(self).inode(inum as int).minor,
                self.inode(inum as int).nlink == old(self).inode(inum as int).nlink,
                self.inode(inum as int).size == old(self).inode(inum as int).size,
                forall|i2: int|
                    0 <= i2 < sb.ninodes && i2 != inum ==> self.inode(i2) == old(self).inode(
                        i2,
                    ),
                forall|q: int|
                    0 <= q < written@.len() ==> (#[trigger] written@[q]) == self.fblock_ptr(
                        inum as int,
                        firstbn + q,
                    ) && sb.dstart <= written@[q] < sb.size && self.is_alloc(
                        written@[q] as int,
                    ) && written@[q] != self.inode(inum as int).addrs[NDIRECT as int],
                forall|q: int, q2: int|
                    0 <= q < q2 < written@.len() ==> written@[q] != written@[q2],
                written@.len() > 0 && firstbn + written@.len() - 1 >= NDIRECT ==> ({
                    let ind = self.inode(inum as int).addrs[NDIRECT as int];
                    ind != 0 && sb.dstart <= ind < sb.size && self.is_alloc(ind as int)
                }),
                forall|m: int|
                    0 <= m < tot ==> #[trigger] self.at(
                        written@[(off as int + m) / (BSIZE as int) - firstbn],
                    )[(off as int + m) % (BSIZE as int)] == data@[m],
            decreases n - tot,
        {
            let ghost pre_iter = *self;
            let pos = off as usize + tot;
            let bn = pos / BSIZE;
            proof {
                lemma_div_pos_is_pos(pos as int, BSIZE as int);
                lemma_div_is_ordered(pos as int, MAXFILE * BSIZE - 1, BSIZE as int);
                lemma_div_is_ordered(pos as int, off as int + n - 1, BSIZE as int);
                lemma_mod_bound(pos as int, BSIZE as int);
                lemma_fundamental_div_mod(pos as int, BSIZE as int);
                lemma_spanned_last(off as int, n as int);
            }
            let b = match self.bmap(inum, bn as u32) {
                Ok(b) => b,
                Err(e) => {
                    proof {
                        if e == FsError::BlockOutOfRange {
                            assert(!self.fblock_sound(inum as int, bn as int));
                        }
                    }
                    return Err(e);
                },
            };
            let d2 = self.read_inode(inum);
            if b == d2.addrs[NDIRECT] {
                proof {
                    assert(self.fblock_ptr(inum as int, bn as int) == b);
                    assert(self.inode(inum as int).addrs[NDIRECT as int] == b);
                    assert(!self.fblock_sound(inum as int, bn as int));
                }
                return Err(FsError::BlockOutOfRange);
            }
            let mut dup = false;
            let mut q: usize = 0;
            while q < written.len()
                invariant
                    q <= written@.len(),
                    dup ==> (exists|q2: int| 0 <= q2 < written@.len() && written@[q2] == b),
                    !dup ==> (forall|q2: int| 0 <= q2 < q ==> written@[q2] != b),
                decreases written@.len() - q,
            {
                if written[q] == b {
                    dup = true;
                }
                q += 1;
            }
            if dup {
                proof {
                    let q2 = choose|q2: int| 0 <= q2 < written@.len() && written@[q2] == b;
                    let w = written@[q2];
                    assert(!pre_iter.ptr_bad(inum as int, firstbn + q2));
                    assert(!pre_iter.ptr_unbacked(inum as int, firstbn + q2));
                    assert(self.fblock_ptr(inum as int, firstbn + q2) == w);
                    assert(self.fblock_ptr(inum as int, bn as int) == b);
                    assert(firstbn + q2 < bn as int && (bn as int) < MAXFILE);
                }
                return Err(FsError::BlockOutOfRange);
            }
            let boff = pos % BSIZE;
            let m = if n - tot < BSIZE - boff {
                n - tot
            } else {
                BSIZE - boff
            };
            let mut blk = self.read_block(b);
            let mut j: usize = 0;
            while j < m
                invariant
                    blk.wf(),
                    j <= m,
                    m <= n - tot,
                    tot + m <= n,
                    n == data@.len(),
                    boff + m <= BSIZE,
                    forall|j2: int| 0 <= j2 < j ==> #[trigger] blk@[boff + j2] == data@[tot
                        + j2],
                decreases m - j,
            {
                blk.set_byte(boff + j, data[tot + j]);
                j += 1;
            }
            let ghost pre_wb = *self;
            self.write_block(b, blk);
            written.push(b);
            proof {
                lemma_iblock_range(sb, inum as int);
                crate::bitmap::lemma_bblock_range(sb, b as int);
                assert forall|t: u32| (t as int) < sb.bmapstart implies self.at(t) == pre_wb.at(
                    t,
                ) by {}
                lemma_inode_frame_data_writes(pre_wb, *self);
                assert forall|b2: int|
                    sb.dstart <= b2 < sb.size implies self.is_alloc(b2) == pre_wb.is_alloc(
                    b2,
                ) by {
                    crate::bitmap::lemma_bblock_range(sb, b2);
                }
                // The indirect slot after this piece: unchanged, or freshly
                // allocated from a block no earlier piece could hold.
                let ghost indn = self.inode(inum as int).addrs[NDIRECT as int];
                assert(indn == pre_wb.inode(inum as int).addrs[NDIRECT as int]);
                assert(b != indn);
                if (bn as int) >= NDIRECT {
                    assert(indn != 0 && sb.dstart <= indn < sb.size && self.is_alloc(
                        indn as int,
                    )) by {
                        assert(pre_wb.is_alloc(indn as int));
                    }
                }
                // The surviving facts of earlier pieces: their pointers,
                // marks and bytes pass untouched through this piece's
                // mapping and write.
                assert forall|q2: int|
                    0 <= q2 < written@.len() - 1 implies (#[trigger] written@[q2])
                    == self.fblock_ptr(inum as int, firstbn + q2) && self.is_alloc(
                    written@[q2] as int,
                ) && self.at(written@[q2]) == pre_iter.at(written@[q2]) && written@[q2]
                    != indn by {
                    let w = written@[q2];
                    assert(!pre_iter.ptr_bad(inum as int, firstbn + q2));
                    assert(!pre_iter.ptr_unbacked(inum as int, firstbn + q2));
                    assert(pre_wb.fblock_ptr(inum as int, firstbn + q2) == w);
                    assert(pre_wb.at(w) == pre_iter.at(w));
                    assert(w != b);
                    assert(self.at(w) == pre_wb.at(w));
                    assert(pre_iter.is_alloc(w as int));
                    if indn != pre_iter.inode(inum as int).addrs[NDIRECT as int] {
                        // A fresh indirect block was free before this piece.
                        assert(!pre_iter.is_alloc(indn as int));
                    }
                    if firstbn + q2 >= NDIRECT {
                        let ind = pre_wb.inode(inum as int).addrs[NDIRECT as int];
                        assert(self.at(ind as u32) == pre_wb.at(ind as u32));
                    }
                }
                // The new piece's own facts.
                assert(self.fblock_ptr(inum as int, bn as int) == b) by {
                    assert(pre_wb.fblock_ptr(inum as int, bn as int) == b);
                    if (bn as int) >= NDIRECT {
                        assert(self.at(indn as u32) == pre_wb.at(indn as u32));
                    }
                }
                assert(self.at(b) == blk@);
                assert(self.is_alloc(b as int));
            }
            tot = tot + m;
            proof {
                if tot < n {
                    vstd::arithmetic::div_mod::lemma_fundamental_div_mod_converse(
                        pos as int + m,
                        BSIZE as int,
                        firstbn + written@.len(),
                        0,
                    );
                }
                vstd::arithmetic::div_mod::lemma_fundamental_div_mod_converse(
                    pos as int + m - 1,
                    BSIZE as int,
                    firstbn + written@.len() - 1,
                    boff as int + m - 1,
                );
                assert forall|m2: int| 0 <= m2 < tot implies #[trigger] self.at(
                    written@[(off as int + m2) / (BSIZE as int) - firstbn],
                )[(off as int + m2) % (BSIZE as int)] == data@[m2] by {
                    let bnm = (off as int + m2) / (BSIZE as int);
                    lemma_div_is_ordered(off as int + m2, off as int + tot - 1, BSIZE as int);
                    lemma_div_pos_is_pos(off as int + m2, BSIZE as int);
                    lemma_mod_bound(off as int + m2, BSIZE as int);
                    if m2 < tot - m {
                        assert(bnm < bn as int) by {
                            lemma_div_is_ordered(off as int + m2, pos as int - 1, BSIZE as int);
                            vstd::arithmetic::div_mod::lemma_fundamental_div_mod_converse(
                                pos as int - 1,
                                BSIZE as int,
                                if boff == 0 {
                                    bn as int - 1
                                } else {
                                    bn as int
                                },
                                if boff == 0 {
                                    BSIZE as int - 1
                                } else {
                                    boff as int - 1
                                },
                            );
                        }
                    } else {
                        vstd::arithmetic::div_mod::lemma_fundamental_div_mod_converse(
                            off as int + m2,
                            BSIZE as int,
                            bn as int,
                            boff + (m2 - (tot - m)),
                        );
                    }
                }
            }
        }
        let mut nd = self.read_inode(inum);
        let ghost pre_wi = *self;
        if off as usize + n > nd.size as usize {
            nd.size = (off as usize + n) as u32;
        }
        self.write_inode(inum, &nd);
        proof {
            lemma_iblock_range(sb, inum as int);
            assert forall|k: int|
                0 <= k < n implies final(self).file_byte(inum as int, off + k) == data@[k] by {
                let p = off as int + k;
                let bnm = p / (BSIZE as int);
                lemma_div_pos_is_pos(p, BSIZE as int);
                lemma_div_is_ordered(off as int, p, BSIZE as int);
                lemma_div_is_ordered(p, off as int + n - 1, BSIZE as int);
                lemma_mod_bound(p, BSIZE as int);
                let q = bnm - firstbn;
                assert(0 <= q < written@.len());
                let w = written@[q];
                assert(final(self).inode(inum as int).addrs == pre_wi.inode(inum as int).addrs);
                if bnm >= NDIRECT {
                    let ind = pre_wi.inode(inum as int).addrs[NDIRECT as int];
                    assert(final(self).at(ind as u32) == pre_wi.at(ind as u32));
                }
                assert(final(self).fblock_ptr(inum as int, bnm) == w);
                assert(final(self).at(w) == pre_wi.at(w));
            }
        }
        Ok(())
    }
}

/// Smaller of two spec integers.
pub open spec fn spec_min(a: int, b: int) -> int {
    if a <= b {
        a
    } else {
        b
    }
}

/// Larger of two spec integers.
pub open spec fn spec_max(a: int, b: int) -> int {
    if a >= b {
        a
    } else {
        b
    }
}

/// Number of data blocks a write of `n` bytes at offset `off` touches.
pub open spec fn spanned_blocks(off: int, n: int) -> int {
    if n <= 0 {
        0
    } else {
        (off + n - 1) / (BSIZE as int) - off / (BSIZE as int) + 1
    }
}

/// The last block a write touches is at least any block an inner position
/// falls in.
pub proof fn lemma_spanned_last(off: int, n: int)
    requires
        0 <= off,
        0 < n,
    ensures
        (off + n - 1) / (BSIZE as int) >= off / (BSIZE as int),
        spanned_blocks(off, n) >= 1,
{
    lemma_div_is_ordered(off, off + n - 1, BSIZE as int);
}

} // verus!
