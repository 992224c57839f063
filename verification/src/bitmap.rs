//! Bitmap block allocator: one bit per data block, bit `i` tracking block
//! `dstart + i`, scanned in ascending order so the lowest-numbered free
//! block is claimed first. All mutation runs through the open transaction.

use vstd::prelude::*;

verus! {

use crate::block::{Block, zero_block};
use crate::fs::{FileSystem, Superblock};
use crate::{BSIZE, BPB, FsError};
use vstd::arithmetic::div_mod::{
    lemma_div_is_ordered,
    lemma_div_multiples_vanish,
    lemma_div_pos_is_pos,
    lemma_fundamental_div_mod,
    lemma_mod_bound,
};

/// The one-bit mask of bit `j` of a byte.
pub open spec fn mask_of(j: int) -> u8 {
    1u8 << (j as u8)
}

/// Whether bit `r` of a bitmap block's content is set.
pub open spec fn bit_is_set(c: Seq<u8>, r: int) -> bool {
    c[r / 8] & mask_of(r % 8) != 0
}

/// The bitmap block's content with bit `r` set.
pub open spec fn with_bit_set(c: Seq<u8>, r: int) -> Seq<u8> {
    c.update(r / 8, c[r / 8] | mask_of(r % 8))
}

/// The bitmap block's content with bit `r` cleared.
pub open spec fn with_bit_clear(c: Seq<u8>, r: int) -> Seq<u8> {
    c.update(r / 8, c[r / 8] & !mask_of(r % 8))
}

/// Geometry: the bit of a data block lives in the bitmap region, and its
/// bit index within its block is a valid one.
pub proof fn lemma_bblock_range(sb: Superblock, b: int)
    requires
        sb.wf(),
        sb.dstart <= b < sb.size,
    ensures
        sb.bmapstart <= sb.bblock(b) < sb.dstart,
        0 <= (b - sb.dstart as int) % (BPB as int) < BPB,
{
    let i = b - sb.dstart as int;
    lemma_mod_bound(i, BPB as int);
    let q = i / (BPB as int);
    lemma_div_pos_is_pos(i, BPB as int);
    lemma_fundamental_div_mod(i, BPB as int);
    lemma_div_multiples_vanish(q + 1, BPB as int);
    lemma_div_is_ordered((BPB as int) * (q + 1), sb.ndata() + BPB as int - 1, BPB as int);
}

/// Setting or clearing one bit leaves every other bit of the block as it
/// was.
pub proof fn lemma_bit_update_frame(c: Seq<u8>, r: int, r2: int)
    requires
        c.len() == BSIZE,
        0 <= r < BPB,
        0 <= r2 < BPB,
        r2 != r,
    ensures
        bit_is_set(with_bit_set(c, r), r2) == bit_is_set(c, r2),
        bit_is_set(with_bit_clear(c, r), r2) == bit_is_set(c, r2),
{
    lemma_mod_bound(r, 8);
    lemma_mod_bound(r2, 8);
    lemma_div_pos_is_pos(r, 8);
    lemma_div_pos_is_pos(r2, 8);
    lemma_div_is_ordered(r, BPB as int - 1, 8);
    lemma_div_is_ordered(r2, BPB as int - 1, 8);
    if r / 8 == r2 / 8 {
        lemma_fundamental_div_mod(r, 8);
        lemma_fundamental_div_mod(r2, 8);
        let j = (r % 8) as u8;
        let j2 = (r2 % 8) as u8;
        let x = c[r / 8];
        assert(j < 8 && j2 < 8 && j2 != j ==> (((x | (1u8 << j)) & (1u8 << j2) != 0) == (x & (1u8
            << j2) != 0))) by (bit_vector);
        assert(j < 8 && j2 < 8 && j2 != j ==> (((x & !(1u8 << j)) & (1u8 << j2) != 0) == (x & (1u8
            << j2) != 0))) by (bit_vector);
    }
}

/// Setting bit `r` makes it read as set; clearing makes it read as clear.
pub proof fn lemma_bit_update_hits(c: Seq<u8>, r: int)
    requires
        c.len() == BSIZE,
        0 <= r < BPB,
    ensures
        bit_is_set(with_bit_set(c, r), r),
        !bit_is_set(with_bit_clear(c, r), r),
{
    lemma_mod_bound(r, 8);
    lemma_div_pos_is_pos(r, 8);
    lemma_div_is_ordered(r, BPB as int - 1, 8);
    let j = (r % 8) as u8;
    let x = c[r / 8];
    assert(j < 8 ==> ((x | (1u8 << j)) & (1u8 << j) != 0)) by (bit_vector);
    assert(j < 8 ==> ((x & !(1u8 << j)) & (1u8 << j) == 0)) by (bit_vector);
}

/// Allocator round-trip: claiming a clear bit and then clearing it again
/// returns the bitmap block to its prior state bit for bit.
pub proof fn lemma_alloc_free_roundtrip(c: Seq<u8>, r: int)
    requires
        c.len() == BSIZE,
        0 <= r < BPB,
        !bit_is_set(c, r),
    ensures
        with_bit_clear(with_bit_set(c, r), r) == c,
{
    lemma_mod_bound(r, 8);
    lemma_div_pos_is_pos(r, 8);
    lemma_div_is_ordered(r, BPB as int - 1, 8);
    let j = (r % 8) as u8;
    let x = c[r / 8];
    assert(j < 8 && x & (1u8 << j) == 0 ==> ((x | (1u8 << j)) & !(1u8 << j)) == x) by (bit_vector);
    assert(with_bit_clear(with_bit_set(c, r), r) =~= c);
}

impl FileSystem {
    /// Whether data block `b` is marked allocated in the open group's view.
    pub open spec fn is_alloc(&self, b: int) -> bool {
        bit_is_set(
            self.at(self.spec_sb().bblock(b) as u32),
            (b - self.spec_sb().dstart as int) % (BPB as int),
        )
    }

    /// Whether data block `b` is marked allocated, read from the bitmap
    /// through the open group's view.
    pub fn check_alloc(&self, b: u32) -> (r: bool)
        requires
            self.wf(),
            self.spec_sb().dstart <= b < self.spec_sb().size,
        ensures
            r == self.is_alloc(b as int),
    {
        let ghost ii = (b - self.sb.dstart) as int;
        let i = (b - self.sb.dstart) as usize;
        let q = i / BPB;
        let rr = i % BPB;
        proof {
            lemma_bblock_range(self.sb, b as int);
            lemma_mod_bound(ii, BPB as int);
            lemma_div_pos_is_pos(rr as int, 8);
            lemma_div_is_ordered(rr as int, BPB as int - 1, 8);
            lemma_mod_bound(rr as int, 8);
        }
        let blk = self.read_block(self.sb.bmapstart + (q as u32));
        let byte = blk.get(rr / 8);
        let m: u8 = 1u8 << ((rr % 8) as u8);
        byte & m != 0
    }

    /// Allocate a zeroed data block: scan the bitmap in ascending order,
    /// claim the first clear bit, record the bitmap block, and record the
    /// claimed block zero filled. With no clear bit the device is full,
    /// which the caller must treat as unrecoverable.
    pub fn balloc(&mut self) -> (r: Result<u32, FsError>)
        requires
            old(self).wf(),
            old(self).outstanding() > 0,
            old(self).room_for(2),
        ensures
            final(self).wf(),
            final(self).spec_sb() == old(self).spec_sb(),
            final(self).disk_view() == old(self).disk_view(),
            final(self).outstanding() == old(self).outstanding(),
            final(self).recorded().len() <= old(self).recorded().len() + 2,
            match r {
                Ok(b) => {
                    let sb = old(self).spec_sb();
                    let rr = (b - sb.dstart as int) % (BPB as int);
                    &&& sb.dstart <= b < sb.size
                    &&& !old(self).is_alloc(b as int)
                    &&& forall|b2: int| sb.dstart <= b2 < b ==> old(self).is_alloc(b2)
                    &&& final(self).is_alloc(b as int)
                    &&& forall|b2: int|
                        sb.dstart <= b2 < sb.size && b2 != b ==> final(self).is_alloc(b2)
                            == old(self).is_alloc(b2)
                    &&& final(self).at(b) == zero_block()
                    &&& final(self).at(sb.bblock(b as int) as u32) == with_bit_set(
                        old(self).at(sb.bblock(b as int) as u32),
                        rr,
                    )
                    &&& forall|t: u32|
                        t != b && t as int != sb.bblock(b as int) ==> final(self).at(t) == old(
                            self,
                        ).at(t)
                },
                Err(e) => {
                    &&& e == FsError::OutOfBlocks
                    &&& forall|b2: int|
                        old(self).spec_sb().dstart <= b2 < old(self).spec_sb().size ==> old(
                            self,
                        ).is_alloc(b2)
                    &&& *final(self) == *old(self)
                },
            },
    {
        let dstart = self.sb.dstart;
        let ndata = (self.sb.size - dstart) as usize;
        let mut i: usize = 0;
        while i < ndata
            invariant
                self.wf(),
                self.spec_sb() == old(self).spec_sb(),
                self.spec_log() == old(self).spec_log(),
                self.spec_disk() == old(self).spec_disk(),
                self.outstanding() > 0,
                self.room_for(2),
                dstart == self.spec_sb().dstart,
                ndata == self.spec_sb().ndata(),
                i <= ndata,
                forall|b2: int|
                    dstart <= b2 < dstart + i ==> #[trigger] old(self).is_alloc(b2),
            decreases ndata - i,
        {
            let ghost ii = i as int;
            let q = i / BPB;
            let r = i % BPB;
            proof {
                lemma_bblock_range(self.sb, dstart as int + ii);
                lemma_mod_bound(ii, BPB as int);
                lemma_div_pos_is_pos(r as int, 8);
                lemma_div_is_ordered(r as int, BPB as int - 1, 8);
                lemma_mod_bound(r as int, 8);
            }
            let bblk: u32 = self.sb.bmapstart + (q as u32);
            let blk = self.read_block(bblk);
            let byte = blk.get(r / 8);
            let m: u8 = 1u8 << ((r % 8) as u8);
            proof {
                assert((ii % (BPB as int)) % 8 == ii % (BPB as int) % 8);
                assert(bit_is_set(self.at(bblk), r as int) == (byte & m != 0));
            }
            if byte & m == 0 {
                let b: u32 = dstart + (i as u32);
                let mut nb = blk;
                nb.set_byte(r / 8, byte | m);
                proof {
                    assert(nb@ == with_bit_set(old(self).at(bblk), r as int));
                }
                self.write_block(bblk, nb);
                self.write_block(b, Block::zeroed());
                proof {
                    let sb = old(self).spec_sb();
                    assert(final(self).at(bblk) == with_bit_set(
                        old(self).at(bblk),
                        r as int,
                    ));
                    lemma_bit_update_hits(old(self).at(bblk), r as int);
                    old(self).lemma_at_wf(bblk);
                    assert(final(self).is_alloc(b as int));
                    assert forall|b2: int|
                        sb.dstart <= b2 < sb.size && b2 != b implies final(self).is_alloc(b2)
                        == old(self).is_alloc(b2) by {
                        let i2 = b2 - sb.dstart as int;
                        let r2 = i2 % (BPB as int);
                        lemma_bblock_range(sb, b2);
                        lemma_fundamental_div_mod(i2, BPB as int);
                        lemma_fundamental_div_mod(ii, BPB as int);
                        if sb.bblock(b2) == sb.bblock(b as int) {
                            assert(r2 != r as int);
                            lemma_bit_update_frame(old(self).at(bblk), r as int, r2);
                        } else {
                            assert(final(self).at(sb.bblock(b2) as u32) == old(self).at(
                                sb.bblock(b2) as u32,
                            ));
                        }
                    }
                }
                return Ok(b);
            }
            proof {
                assert(old(self).is_alloc(dstart as int + ii));
            }
            i += 1;
        }
        Err(FsError::OutOfBlocks)
    }

    /// Free data block `b`: clear its bitmap bit and record the bitmap
    /// block. Freeing a block whose bit is already clear, or one outside
    /// the data region, is an accounting violation and is reported instead
    /// of being silently ignored, so the caller can halt the device.
    pub fn bfree(&mut self, b: u32) -> (r: Result<(), FsError>)
        requires
            old(self).wf(),
            old(self).outstanding() > 0,
            old(self).room_for(1),
        ensures
            final(self).wf(),
            final(self).spec_sb() == old(self).spec_sb(),
            final(self).disk_view() == old(self).disk_view(),
            final(self).outstanding() == old(self).outstanding(),
            final(self).recorded().len() <= old(self).recorded().len() + 1,
            match r {
                Ok(()) => {
                    let sb = old(self).spec_sb();
                    let rr = (b - sb.dstart as int) % (BPB as int);
                    &&& sb.dstart <= b < sb.size
                    &&& old(self).is_alloc(b as int)
                    &&& !final(self).is_alloc(b as int)
                    &&& forall|b2: int|
                        sb.dstart <= b2 < sb.size && b2 != b ==> final(self).is_alloc(b2)
                            == old(self).is_alloc(b2)
                    &&& final(self).at(sb.bblock(b as int) as u32) == with_bit_clear(
                        old(self).at(sb.bblock(b as int) as u32),
                        rr,
                    )
                    &&& forall|t: u32|
                        t as int != sb.bblock(b as int) ==> final(self).at(t) == old(self).at(t)
                },
                Err(e) => {
                    &&& *final(self) == *old(self)
                    &&& e == FsError::BlockOutOfRange <==> !(old(self).spec_sb().dstart <= b
                        < old(self).spec_sb().size)
                    &&& e == FsError::FreeingFreeBlock <==> (old(self).spec_sb().dstart <= b
                        < old(self).spec_sb().size) && !old(self).is_alloc(b as int)
                    &&& e == FsError::BlockOutOfRange || e == FsError::FreeingFreeBlock
                },
            },
            r is Ok <==> (old(self).spec_sb().dstart <= b < old(self).spec_sb().size) && old(
                self,
            ).is_alloc(b as int),
    {
        if b < self.sb.dstart || b >= self.sb.size {
            return Err(FsError::BlockOutOfRange);
        }
        let ghost ii = (b - self.sb.dstart) as int;
        let i = (b - self.sb.dstart) as usize;
        let q = i / BPB;
        let r = i % BPB;
        proof {
            lemma_bblock_range(self.sb, b as int);
            lemma_mod_bound(ii, BPB as int);
            lemma_div_pos_is_pos(r as int, 8);
            lemma_div_is_ordered(r as int, BPB as int - 1, 8);
            lemma_mod_bound(r as int, 8);
        }
        let bblk: u32 = self.sb.bmapstart + (q as u32);
        let blk = self.read_block(bblk);
        let byte = blk.get(r / 8);
        let m: u8 = 1u8 << ((r % 8) as u8);
        proof {
            assert(bit_is_set(self.at(bblk), r as int) == (byte & m != 0));
        }
        if byte & m == 0 {
            return Err(FsError::FreeingFreeBlock);
        }
        let mut nb = blk;
        nb.set_byte(r / 8, byte & !m);
        proof {
            assert(nb@ == with_bit_clear(old(self).at(bblk), r as int));
        }
        self.write_block(bblk, nb);
        proof {
            let sb = old(self).spec_sb();
            lemma_bit_update_hits(old(self).at(bblk), r as int);
            old(self).lemma_at_wf(bblk);
            assert(!final(self).is_alloc(b as int));
            assert forall|b2: int|
                sb.dstart <= b2 < sb.size && b2 != b implies final(self).is_alloc(b2) == old(
                self,
            ).is_alloc(b2) by {
                let i2 = b2 - sb.dstart as int;
                let r2 = i2 % (BPB as int);
                lemma_bblock_range(sb, b2);
                lemma_fundamental_div_mod(i2, BPB as int);
                lemma_fundamental_div_mod(ii, BPB as int);
                if sb.bblock(b2) == sb.bblock(b as int) {
                    assert(r2 != r as int);
                    lemma_bit_update_frame(old(self).at(bblk), r as int, r2);
                } else {
                    assert(final(self).at(sb.bblock(b2) as u32) == old(self).at(
                        sb.bblock(b2) as u32,
                    ));
                }
            }
        }
        Ok(())
    }
}

} // verus!
