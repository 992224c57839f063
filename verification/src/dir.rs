//! Directories: an inode of type `T_DIR` whose data is a packed array of
//! fixed-size entries, each a 4-byte inode number (zero marks an empty,
//! reusable slot) and a name of up to `DIRSIZ` bytes, zero padded. Lookup
//! scans in order; insertion reuses the first empty slot before growing the
//! directory; removal zeroes the inode-number field in place.

use vstd::prelude::*;

verus! {

use crate::block::{le32, zero_block};
use crate::fs::FileSystem;
use crate::{BSIZE, DIRSIZ, DIRENT_SIZE, MAXFILE, NDIRECT, T_DIR, FsError};
use crate::inode::{lemma_inode_frame_data_writes, lemma_iblock_range, spec_max};
use vstd::arithmetic::div_mod::{
    lemma_div_is_ordered,
    lemma_div_multiples_vanish,
    lemma_div_pos_is_pos,
    lemma_fundamental_div_mod,
    lemma_mod_bound,
};

/// Entries per directory block.
pub const EPB: usize = BSIZE / DIRENT_SIZE;

/// A name padded with zero bytes to the fixed on-disk width.
pub open spec fn padded_name(nm: Seq<u8>) -> Seq<u8> {
    Seq::new(DIRSIZ as nat, |i: int| if i < nm.len() { nm[i] } else { 0u8 })
}

impl FileSystem {
    /// The content of the directory block holding entry `e`: a hole reads
    /// as zeros.
    pub open spec fn dirent_block(&self, dirino: int, e: int) -> Seq<u8> {
        let p = self.fblock_ptr(dirino, e / (EPB as int));
        if p == 0 {
            zero_block()
        } else {
            self.at(p)
        }
    }

    /// Byte offset of entry `e` inside its block.
    pub open spec fn dirent_off(e: int) -> int {
        (e % (EPB as int)) * DIRENT_SIZE
    }

    /// The inode number stored in entry `e` of directory `dirino`.
    pub open spec fn dirent_inum(&self, dirino: int, e: int) -> u32 {
        le32(self.dirent_block(dirino, e), Self::dirent_off(e))
    }

    /// The stored name of entry `e`, `DIRSIZ` bytes, zero padded.
    pub open spec fn dirent_name(&self, dirino: int, e: int) -> Seq<u8> {
        self.dirent_block(dirino, e).subrange(
            Self::dirent_off(e) + 4,
            Self::dirent_off(e) + 4 + DIRSIZ,
        )
    }

    /// Number of entries the directory's size covers.
    pub open spec fn dir_nentries(&self, dirino: int) -> int {
        self.inode(dirino).size as int / (DIRENT_SIZE as int)
    }

    /// Whether entry `e` is live and carries `nm`.
    pub open spec fn dirent_matches(&self, dirino: int, e: int, nm: Seq<u8>) -> bool {
        self.dirent_inum(dirino, e) != 0 && self.dirent_name(dirino, e) == padded_name(nm)
    }

    /// The disk block of entry `e`, validated; `Ok(0)` marks a hole.
    fn dirent_fetch(&self, dirino: u32, e: u32) -> (r: Result<u32, FsError>)
        requires
            self.wf(),
            dirino < self.spec_sb().ninodes,
            0 <= (e as int) / (EPB as int) < MAXFILE,
        ensures
            r is Err <==> self.ptr_bad(dirino as int, e as int / (EPB as int)),
            match r {
                Ok(p) => {
                    &&& p == self.fblock_ptr(dirino as int, e as int / (EPB as int))
                    &&& p != 0 ==> self.spec_sb().dstart <= p < self.spec_sb().size
                },
                Err(er) => er == FsError::BlockOutOfRange,
            },
    {
        let bn = e as usize / EPB;
        let d = self.read_inode(dirino);
        let p: u32 = if bn < NDIRECT {
            d.addrs[bn]
        } else {
            let ind = d.addrs[NDIRECT];
            if ind == 0 {
                0u32
            } else {
                if ind < self.sb.dstart || ind >= self.sb.size {
                    return Err(FsError::BlockOutOfRange);
                }
                let ib = self.read_block(ind);
                ib.get_u32(4 * (bn - NDIRECT))
            }
        };
        if p != 0 && (p < self.sb.dstart || p >= self.sb.size) {
            return Err(FsError::BlockOutOfRange);
        }
        Ok(p)
    }

    /// Look `nm` up in directory `dirino`: scan the entries in order and
    /// return the inode number and byte offset of the first live entry
    /// carrying the name, or report that none does.
    pub fn dirlookup(&self, dirino: u32, nm: &Vec<u8>) -> (r: Result<(u32, u32), FsError>)
        requires
            self.wf(),
            dirino < self.spec_sb().ninodes,
            nm@.len() <= DIRSIZ,
            self.inode(dirino as int).size <= MAXFILE * BSIZE,
        ensures
            r == Result::<(u32, u32), FsError>::Err(FsError::NotADirectory) <==> self.inode(
                dirino as int,
            ).typ != T_DIR,
            match r {
                Ok((inum, off)) => {
                    let e = off as int / (DIRENT_SIZE as int);
                    &&& off == e * DIRENT_SIZE
                    &&& 0 <= e < self.dir_nentries(dirino as int)
                    &&& self.dirent_matches(dirino as int, e, nm@)
                    &&& self.dirent_inum(dirino as int, e) == inum
                    &&& forall|e2: int|
                        0 <= e2 < e ==> !self.dirent_matches(dirino as int, e2, nm@)
                },
                Err(er) => {
                    &&& er == FsError::NotFound ==> forall|e2: int|
                        0 <= e2 < self.dir_nentries(dirino as int) ==> !self.dirent_matches(
                            dirino as int,
                            e2,
                            nm@,
                        )
                    &&& er == FsError::BlockOutOfRange ==> exists|e2: int|
                        0 <= e2 < self.dir_nentries(dirino as int) && self.ptr_bad(
                            dirino as int,
                            #[trigger] (e2 / (EPB as int)),
                        )
                    &&& (er == FsError::NotFound || er == FsError::NotADirectory || er
                        == FsError::BlockOutOfRange)
                },
            },
    {
        let d = self.read_inode(dirino);
        if d.typ != T_DIR {
            return Err(FsError::NotADirectory);
        }
        let nent = d.size as usize / DIRENT_SIZE;
        let mut e: usize = 0;
        while e < nent
            invariant
                self.wf(),
                dirino < self.spec_sb().ninodes,
                nm@.len() <= DIRSIZ,
                self.inode(dirino as int).typ == T_DIR,
                self.inode(dirino as int).size <= MAXFILE * BSIZE,
                nent == self.dir_nentries(dirino as int),
                e <= nent,
                forall|e2: int| 0 <= e2 < e ==> !self.dirent_matches(dirino as int, e2, nm@),
            decreases nent - e,
        {
            proof {
                lemma_dirent_bounds(self.inode(dirino as int).size as int, e as int);
            }
            let p = match self.dirent_fetch(dirino, e as u32) {
                Ok(p) => p,
                Err(er) => {
                    proof {
                        assert(self.ptr_bad(dirino as int, e as int / (EPB as int)));
                    }
                    return Err(er);
                },
            };
            let off = (e % EPB) * DIRENT_SIZE;
            proof {
                lemma_mod_bound(e as int, EPB as int);
            }
            let (inum, matches) = if p == 0 {
                proof {
                    assert((0u32) | ((0u32) << 8u32) | ((0u32) << 16u32) | ((0u32) << 24u32)
                        == 0u32) by (bit_vector);
                    assert(self.dirent_inum(dirino as int, e as int) == 0);
                }
                (0u32, false)
            } else {
                let blk = self.read_block(p);
                let inum = blk.get_u32(off);
                if inum == 0 {
                    (0u32, false)
                } else {
                    let mut eq = true;
                    let mut i: usize = 0;
                    while i < DIRSIZ
                        invariant
                            self.wf(),
                            blk.wf(),
                            nm@.len() <= DIRSIZ,
                            i <= DIRSIZ,
                            off + DIRENT_SIZE <= BSIZE,
                            eq == (forall|j: int|
                                0 <= j < i ==> blk@[off + 4 + j] == padded_name(nm@)[j]),
                        decreases DIRSIZ - i,
                    {
                        let want: u8 = if i < nm.len() {
                            nm[i]
                        } else {
                            0u8
                        };
                        if blk.get(off + 4 + i) != want {
                            eq = false;
                            proof {
                                assert(blk@[off + 4 + i] != padded_name(nm@)[i as int]);
                            }
                        }
                        i += 1;
                    }
                    proof {
                        if eq {
                            assert(blk@.subrange(off + 4, off + 4 + DIRSIZ) =~= padded_name(
                                nm@,
                            ));
                        } else {
                            assert(blk@.subrange(off + 4, off + 4 + DIRSIZ) != padded_name(nm@))
                                by {
                                let j = choose|j: int|
                                    0 <= j < DIRSIZ && blk@[off + 4 + j] != padded_name(nm@)[j];
                                assert(blk@.subrange(off + 4, off + 4 + DIRSIZ)[j] != padded_name(
                                    nm@,
                                )[j]);
                            }
                        }
                    }
                    (inum, eq)
                }
            };
            if matches {
                proof {
                    lemma_fundamental_div_mod(e as int, EPB as int);
                    vstd::arithmetic::div_mod::lemma_fundamental_div_mod_converse(
                        e as int * DIRENT_SIZE,
                        DIRENT_SIZE as int,
                        e as int,
                        0,
                    );
                }
                return Ok((inum, (e * DIRENT_SIZE) as u32));
            }
            proof {
                assert(!self.dirent_matches(dirino as int, e as int, nm@));
            }
            e += 1;
        }
        Err(FsError::NotFound)
    }
}

impl FileSystem {
    /// Write entry `e` of directory `dirino` as `(inum, nm)`, through the
    /// open transaction. The entry's block must exist or be allocatable;
    /// `e` may be at most one past the entries the current size covers, and
    /// in that case the directory grows by one entry.
    #[verifier::rlimit(80)]
    fn dirent_write(&mut self, dirino: u32, e: u32, inum: u32, nm: &Vec<u8>) -> (r: Result<
        (),
        FsError,
    >)
        requires
            old(self).wf(),
            old(self).outstanding() > 0,
            old(self).recorded().len() + 9 <= old(self).spec_log().capacity(),
            dirino < old(self).spec_sb().ninodes,
            nm@.len() <= DIRSIZ,
            old(self).inode(dirino as int).size as int == DIRENT_SIZE * old(self).dir_nentries(
                dirino as int,
            ),
            0 <= e as int <= old(self).dir_nentries(dirino as int),
            (e as int + 1) * DIRENT_SIZE <= MAXFILE * BSIZE,
        ensures
            final(self).wf(),
            final(self).spec_sb() == old(self).spec_sb(),
            final(self).disk_view() == old(self).disk_view(),
            final(self).outstanding() == old(self).outstanding(),
            final(self).inode(dirino as int).typ == old(self).inode(dirino as int).typ,
            final(self).inode(dirino as int).nlink == old(self).inode(dirino as int).nlink,
            forall|i2: int|
                0 <= i2 < old(self).spec_sb().ninodes && i2 != dirino ==> final(self).inode(i2)
                    == old(self).inode(i2),
            match r {
                Ok(()) => {
                    &&& final(self).dirent_inum(dirino as int, e as int) == inum
                    &&& final(self).dirent_name(dirino as int, e as int) == padded_name(nm@)
                    &&& final(self).inode(dirino as int).size as int == DIRENT_SIZE * spec_max(
                        old(self).dir_nentries(dirino as int),
                        e as int + 1,
                    )
                },
                Err(er) => er == FsError::OutOfBlocks || er == FsError::BlockOutOfRange,
            },
            !(r is Ok) ==> final(self).inode(dirino as int).size == old(self).inode(
                dirino as int,
            ).size,
            r == Result::<(), FsError>::Err(FsError::OutOfBlocks) ==> forall|b2: int|
                old(self).spec_sb().dstart <= b2 < old(self).spec_sb().size
                    ==> final(self).is_alloc(b2),
            r == Result::<(), FsError>::Err(FsError::BlockOutOfRange) ==> exists|bn2: int|
                0 <= bn2 < MAXFILE && !(#[trigger] final(self).fblock_sound(dirino as int, bn2)),
    {
        let ghost sb = old(self).spec_sb();
        let bn = e as usize / EPB;
        proof {
            lemma_div_pos_is_pos(e as int, EPB as int);
            lemma_div_is_ordered(e as int, MAXFILE * EPB as int - 1, EPB as int);
            lemma_mod_bound(e as int, EPB as int);
        }
        let b = match self.bmap(dirino, bn as u32) {
            Ok(b) => b,
            Err(er) => {
                proof {
                    if er == FsError::BlockOutOfRange {
                        assert(!self.fblock_sound(dirino as int, bn as int));
                    }
                }
                return Err(er);
            },
        };
        let ghost post_bmap = *self;
        let d2 = self.read_inode(dirino);
        if bn >= NDIRECT && (b == d2.addrs[NDIRECT] || d2.addrs[NDIRECT] < self.sb.dstart
            || d2.addrs[NDIRECT] >= self.sb.size) {
            // An indirect pointer doubling as a data block is corruption;
            // one outside the data region cannot leave the mapping above.
            proof {
                assert(self.fblock_ptr(dirino as int, bn as int) == b);
                assert(!self.fblock_sound(dirino as int, bn as int));
            }
            return Err(FsError::BlockOutOfRange);
        }
        let off = (e as usize % EPB) * DIRENT_SIZE;
        let mut blk = self.read_block(b);
        blk.put_u32(off, inum);
        let mut i: usize = 0;
        while i < DIRSIZ
            invariant
                blk.wf(),
                i <= DIRSIZ,
                off + DIRENT_SIZE <= BSIZE,
                nm@.len() <= DIRSIZ,
                le32(blk@, off as int) == inum,
                forall|j: int| 0 <= j < i ==> blk@[off + 4 + j] == padded_name(nm@)[j],
                forall|p: int|
                    0 <= p < BSIZE && !(off <= p < off + 4 + i) ==> blk@[p] == post_bmap.at(b)[p],
            decreases DIRSIZ - i,
        {
            let c: u8 = if i < nm.len() {
                nm[i]
            } else {
                0u8
            };
            blk.set_byte(off + 4 + i, c);
            i += 1;
        }
        let ghost pre_wb = *self;
        self.write_block(b, blk);
        proof {
            crate::bitmap::lemma_bblock_range(sb, b as int);
            assert forall|t: u32| (t as int) < sb.bmapstart implies self.at(t) == pre_wb.at(
                t,
            ) by {}
            lemma_inode_frame_data_writes(pre_wb, *self);
            assert(self.inode(dirino as int) == post_bmap.inode(dirino as int));
            assert(self.fblock_ptr(dirino as int, bn as int) == b);
            assert(self.dirent_name(dirino as int, e as int) =~= padded_name(nm@));
        }
        // Grow the directory if the entry lies past the current size.
        let nd = self.read_inode(dirino);
        let ghost pre_wi = *self;
        if (e as usize + 1) * DIRENT_SIZE > nd.size as usize {
            let mut nd2 = nd;
            nd2.size = ((e as usize + 1) * DIRENT_SIZE) as u32;
            self.write_inode(dirino, &nd2);
            proof {
                lemma_iblock_range(sb, dirino as int);
                assert(final(self).inode(dirino as int).addrs == pre_wi.inode(
                    dirino as int,
                ).addrs);
                if bn >= NDIRECT {
                    let ind = pre_wi.inode(dirino as int).addrs[NDIRECT as int];
                    assert(final(self).at(ind as u32) == pre_wi.at(ind as u32));
                }
                assert(final(self).fblock_ptr(dirino as int, bn as int) == b);
                assert(final(self).at(b) == pre_wi.at(b));
                assert(final(self).dirent_name(dirino as int, e as int) =~= padded_name(nm@));
                lemma_fundamental_div_mod(old(self).inode(dirino as int).size as int,
                    DIRENT_SIZE as int);
            }
        } else {
            proof {
                lemma_fundamental_div_mod(old(self).inode(dirino as int).size as int,
                    DIRENT_SIZE as int);
            }
        }
        Ok(())
    }
}

impl FileSystem {
    /// The slot an insertion takes, scanning from entry `e`: the first
    /// empty slot, or one past the last entry if none is free.
    pub open spec fn first_free_from(&self, dirino: int, e: int) -> int
        decreases self.dir_nentries(dirino) - e,
    {
        if e >= self.dir_nentries(dirino) {
            e
        } else if self.dirent_inum(dirino, e) == 0 {
            e
        } else {
            self.first_free_from(dirino, e + 1)
        }
    }

    /// Insert the entry `(inum, nm)` into directory `dirino`: the first
    /// empty slot is reused; with none free the directory grows by one
    /// entry. A name longer than `DIRSIZ` bytes, a non-directory inode and
    /// a name already present are each refused.
    pub fn dirlink(&mut self, dirino: u32, nm: &Vec<u8>, inum: u32) -> (r: Result<(), FsError>)
        requires
            old(self).wf(),
            old(self).outstanding() > 0,
            old(self).recorded().len() + 9 <= old(self).spec_log().capacity(),
            dirino < old(self).spec_sb().ninodes,
            old(self).inode(dirino as int).size as int == DIRENT_SIZE * old(self).dir_nentries(
                dirino as int,
            ),
            old(self).inode(dirino as int).size <= MAXFILE * BSIZE,
        ensures
            final(self).wf(),
            final(self).spec_sb() == old(self).spec_sb(),
            final(self).disk_view() == old(self).disk_view(),
            final(self).outstanding() == old(self).outstanding(),
            final(self).inode(dirino as int).typ == old(self).inode(dirino as int).typ,
            final(self).inode(dirino as int).nlink == old(self).inode(dirino as int).nlink,
            forall|i2: int|
                0 <= i2 < old(self).spec_sb().ninodes && i2 != dirino ==> final(self).inode(i2)
                    == old(self).inode(i2),
            r == Result::<(), FsError>::Err(FsError::NameTooLong) <==> nm@.len() > DIRSIZ,
            nm@.len() <= DIRSIZ ==> (r == Result::<(), FsError>::Err(FsError::NotADirectory)
                <==> old(self).inode(dirino as int).typ != T_DIR),
            r == Result::<(), FsError>::Err(FsError::AlreadyExists) ==> exists|e2: int|
                0 <= e2 < old(self).dir_nentries(dirino as int) && old(self).dirent_matches(
                    dirino as int,
                    e2,
                    nm@,
                ),
            r is Ok ==> {
                let e = old(self).first_free_from(dirino as int, 0);
                &&& final(self).dirent_inum(dirino as int, e) == inum
                &&& final(self).dirent_name(dirino as int, e) == padded_name(nm@)
                &&& final(self).inode(dirino as int).size as int == DIRENT_SIZE * spec_max(
                    old(self).dir_nentries(dirino as int),
                    e + 1,
                )
            },
            !(r is Ok) ==> final(self).inode(dirino as int).size == old(self).inode(
                dirino as int,
            ).size,
            r == Result::<(), FsError>::Err(FsError::FileTooLarge) ==> old(self).first_free_from(
                dirino as int,
                0,
            ) == old(self).dir_nentries(dirino as int) && DIRENT_SIZE * (old(self).dir_nentries(
                dirino as int,
            ) + 1) > MAXFILE * BSIZE,
            r == Result::<(), FsError>::Err(FsError::OutOfBlocks) ==> forall|b2: int|
                old(self).spec_sb().dstart <= b2 < old(self).spec_sb().size
                    ==> final(self).is_alloc(b2),
            r == Result::<(), FsError>::Err(FsError::BlockOutOfRange) ==> exists|bn2: int|
                0 <= bn2 < MAXFILE && !(#[trigger] final(self).fblock_sound(dirino as int, bn2)),
            match r {
                Ok(()) => true,
                Err(er) => er == FsError::NameTooLong || er == FsError::NotADirectory || er
                    == FsError::AlreadyExists || er == FsError::FileTooLarge || er
                    == FsError::OutOfBlocks || er == FsError::BlockOutOfRange,
            },
    {
        if nm.len() > DIRSIZ {
            return Err(FsError::NameTooLong);
        }
        let d = self.read_inode(dirino);
        if d.typ != T_DIR {
            return Err(FsError::NotADirectory);
        }
        proof {
            lemma_dir_size_bound(old(self).inode(dirino as int).size as int);
        }
        match self.dirlookup(dirino, nm) {
            Ok(_) => {
                return Err(FsError::AlreadyExists);
            },
            Err(FsError::NotFound) => {},
            Err(er) => {
                proof {
                    if er == FsError::BlockOutOfRange {
                        let e2 = choose|e2: int|
                            0 <= e2 < self.dir_nentries(dirino as int) && #[trigger] self.ptr_bad(
                                dirino as int,
                                e2 / (EPB as int),
                            );
                        lemma_dirent_bounds(self.inode(dirino as int).size as int, e2);
                        assert(!self.fblock_sound(dirino as int, e2 / (EPB as int)));
                    }
                }
                return Err(er);
            },
        }
        let nent = d.size as usize / DIRENT_SIZE;
        let mut e: usize = 0;
        let mut found = false;
        while e < nent && !found
            invariant
                self.wf(),
                *self == *old(self),
                nm@.len() <= DIRSIZ,
                dirino < self.spec_sb().ninodes,
                self.inode(dirino as int).typ == T_DIR,
                self.inode(dirino as int).size <= MAXFILE * BSIZE,
                nent == self.dir_nentries(dirino as int),
                e <= nent,
                found ==> e < nent && self.dirent_inum(dirino as int, e as int) == 0,
                self.first_free_from(dirino as int, 0) == if found {
                    e as int
                } else {
                    self.first_free_from(dirino as int, e as int)
                },
            decreases nent - e + (if found { 0int } else { 1int }),
        {
            proof {
                lemma_dirent_bounds(self.inode(dirino as int).size as int, e as int);
            }
            let p = match self.dirent_fetch(dirino, e as u32) {
                Ok(p) => p,
                Err(er) => {
                    proof {
                        assert(self.ptr_bad(dirino as int, e as int / (EPB as int)));
                        assert(!self.fblock_sound(dirino as int, e as int / (EPB as int)));
                    }
                    return Err(er);
                },
            };
            let slot_inum: u32 = if p == 0 {
                proof {
                    assert((0u32) | ((0u32) << 8u32) | ((0u32) << 16u32) | ((0u32) << 24u32)
                        == 0u32) by (bit_vector);
                }
                0u32
            } else {
                let blk = self.read_block(p);
                proof {
                    lemma_mod_bound(e as int, EPB as int);
                }
                blk.get_u32((e % EPB) * DIRENT_SIZE)
            };
            if slot_inum == 0 {
                found = true;
            } else {
                e += 1;
            }
        }
        let ghost chosen = old(self).first_free_from(dirino as int, 0);
        proof {
            assert(chosen == e as int);
        }
        if (e + 1) * DIRENT_SIZE > MAXFILE * BSIZE {
            return Err(FsError::FileTooLarge);
        }
        match self.dirent_write(dirino, e as u32, inum, nm) {
            Ok(()) => Ok(()),
            Err(er) => Err(er),
        }
    }

    /// Remove the entry carrying `nm` from directory `dirino` by zeroing
    /// its inode-number field in place: the slot becomes reusable and the
    /// directory's size does not shrink.
    pub fn dirunlink(&mut self, dirino: u32, nm: &Vec<u8>) -> (r: Result<(), FsError>)
        requires
            old(self).wf(),
            old(self).outstanding() > 0,
            old(self).recorded().len() + 1 <= old(self).spec_log().capacity(),
            dirino < old(self).spec_sb().ninodes,
            old(self).inode(dirino as int).size <= MAXFILE * BSIZE,
        ensures
            final(self).wf(),
            final(self).spec_sb() == old(self).spec_sb(),
            final(self).disk_view() == old(self).disk_view(),
            final(self).outstanding() == old(self).outstanding(),
            final(self).inode(dirino as int).typ == old(self).inode(dirino as int).typ,
            final(self).inode(dirino as int).nlink == old(self).inode(dirino as int).nlink,
            final(self).inode(dirino as int).size == old(self).inode(dirino as int).size,
            forall|i2: int|
                0 <= i2 < old(self).spec_sb().ninodes && i2 != dirino ==> final(self).inode(i2)
                    == old(self).inode(i2),
            r == Result::<(), FsError>::Err(FsError::NameTooLong) <==> nm@.len() > DIRSIZ,
            nm@.len() <= DIRSIZ ==> (r == Result::<(), FsError>::Err(FsError::NotADirectory)
                <==> old(self).inode(dirino as int).typ != T_DIR),
            r == Result::<(), FsError>::Err(FsError::NotFound) ==> forall|e2: int|
                0 <= e2 < old(self).dir_nentries(dirino as int) ==> !old(self).dirent_matches(
                    dirino as int,
                    e2,
                    nm@,
                ),
            r is Ok ==> exists|e: int|
                {
                    &&& 0 <= e < old(self).dir_nentries(dirino as int)
                    &&& old(self).dirent_matches(dirino as int, e, nm@)
                    &&& (forall|e2: int|
                        0 <= e2 < e ==> !old(self).dirent_matches(dirino as int, e2, nm@))
                    &&& final(self).dirent_inum(dirino as int, e) == 0
                },
            r == Result::<(), FsError>::Err(FsError::BlockOutOfRange) ==> exists|bn2: int|
                0 <= bn2 < MAXFILE && !(#[trigger] final(self).fblock_sound(dirino as int, bn2)),
            match r {
                Ok(()) => true,
                Err(er) => er == FsError::NameTooLong || er == FsError::NotADirectory || er
                    == FsError::NotFound || er == FsError::BlockOutOfRange,
            },
    {
        if nm.len() > DIRSIZ {
            return Err(FsError::NameTooLong);
        }
        let (_, off) = match self.dirlookup(dirino, nm) {
            Ok(pair) => pair,
            Err(er) => {
                proof {
                    if er == FsError::BlockOutOfRange {
                        let e2 = choose|e2: int|
                            0 <= e2 < self.dir_nentries(dirino as int) && #[trigger] self.ptr_bad(
                                dirino as int,
                                e2 / (EPB as int),
                            );
                        lemma_dirent_bounds(self.inode(dirino as int).size as int, e2);
                        assert(!self.fblock_sound(dirino as int, e2 / (EPB as int)));
                    }
                }
                return Err(er);
            },
        };
        let e = off as usize / DIRENT_SIZE;
        proof {
            lemma_dirent_bounds(self.inode(dirino as int).size as int, e as int);
            lemma_div_pos_is_pos(e as int, EPB as int);
            lemma_div_is_ordered(e as int, MAXFILE * EPB as int - 1, EPB as int);
            lemma_mod_bound(e as int, EPB as int);
            vstd::arithmetic::div_mod::lemma_fundamental_div_mod_converse(
                off as int,
                DIRENT_SIZE as int,
                e as int,
                0,
            );
        }
        let bn = e / EPB;
        let p = match self.dirent_fetch(dirino, e as u32) {
            Ok(p) => p,
            Err(er) => {
                proof {
                    assert(self.ptr_bad(dirino as int, e as int / (EPB as int)));
                    assert(!self.fblock_sound(dirino as int, e as int / (EPB as int)));
                }
                return Err(er);
            },
        };
        proof {
            if p == 0 {
                assert((0u32) | ((0u32) << 8u32) | ((0u32) << 16u32) | ((0u32) << 24u32) == 0u32)
                    by (bit_vector);
                assert(self.dirent_inum(dirino as int, e as int) == 0);
            }
        }
        let d = self.read_inode(dirino);
        if bn >= NDIRECT && (p == d.addrs[NDIRECT] || d.addrs[NDIRECT] < self.sb.dstart
            || d.addrs[NDIRECT] >= self.sb.size) {
            proof {
                assert(self.fblock_ptr(dirino as int, bn as int) == p);
                assert(p != 0);
                assert(!self.fblock_sound(dirino as int, bn as int));
            }
            return Err(FsError::BlockOutOfRange);
        }
        let inoff = (e % EPB) * DIRENT_SIZE;
        let mut blk = self.read_block(p);
        blk.put_u32(inoff, 0);
        let ghost pre_wb = *self;
        self.write_block(p, blk);
        proof {
            let sb = old(self).spec_sb();
            crate::bitmap::lemma_bblock_range(sb, p as int);
            assert forall|t: u32| (t as int) < sb.bmapstart implies self.at(t) == pre_wb.at(
                t,
            ) by {}
            lemma_inode_frame_data_writes(pre_wb, *self);
            lemma_iblock_range(sb, dirino as int);
            assert(self.inode(dirino as int) == pre_wb.inode(dirino as int));
            assert(self.fblock_ptr(dirino as int, bn as int) == p);
            assert(self.dirent_inum(dirino as int, e as int) == 0);
        }
        Ok(())
    }
}

/// A directory's size, at most the largest file, covers fewer than the
/// greatest number of entries a file can hold.
pub proof fn lemma_dir_size_bound(size: int)
    requires
        0 <= size <= MAXFILE * BSIZE,
    ensures
        size / (DIRENT_SIZE as int) <= MAXFILE * EPB as int,
{
    lemma_div_is_ordered(size, MAXFILE * BSIZE, DIRENT_SIZE as int);
    lemma_div_multiples_vanish(MAXFILE * EPB as int, DIRENT_SIZE as int);
}

/// An entry covered by the directory's size lies in a file block the size
/// admits.
pub proof fn lemma_dirent_bounds(size: int, e: int)
    requires
        0 <= size <= MAXFILE * BSIZE,
        0 <= e < size / (DIRENT_SIZE as int),
    ensures
        e / (EPB as int) < MAXFILE,
        e * DIRENT_SIZE + DIRENT_SIZE <= size,
{
    lemma_div_pos_is_pos(e, EPB as int);
    lemma_div_is_ordered(e, MAXFILE * EPB as int - 1, EPB as int);
    lemma_fundamental_div_mod(size, DIRENT_SIZE as int);
    lemma_mod_bound(size, DIRENT_SIZE as int);
}

} // verus!
