//! An in-memory model of a raw block device: a fixed array of blocks,
//! written one whole block at a time. Durable state lives here; a crash
//! preserves exactly this array and discards everything held in memory.

use vstd::prelude::*;

verus! {

use crate::block::{Block, zero_block};

/// The block device: `blocks[i]` is the current content of disk block `i`.
pub struct Disk {
    blocks: Vec<Block>,
}

impl View for Disk {
    type V = Seq<Seq<u8>>;

    closed spec fn view(&self) -> Seq<Seq<u8>> {
        Seq::new(self.blocks@.len(), |i: int| self.blocks@[i]@)
    }
}

impl Disk {
    pub open spec fn wf(&self) -> bool {
        forall|i: int| 0 <= i < self@.len() ==> (#[trigger] self@[i]).len() == crate::BSIZE
    }

    /// A device of `n` blocks, all zeroed.
    pub fn new(n: usize) -> (r: Disk)
        ensures
            r.wf(),
            r@.len() == n,
            forall|i: int| 0 <= i < n ==> r@[i] == zero_block(),
    {
        let mut blocks: Vec<Block> = Vec::new();
        let mut i: usize = 0;
        while i < n
            invariant
                i <= n,
                blocks@.len() == i,
                forall|j: int| 0 <= j < i ==> (#[trigger] blocks@[j])@ == zero_block(),
            decreases n - i,
        {
            blocks.push(Block::zeroed());
            i += 1;
        }
        let r = Disk { blocks };
        assert forall|j: int| 0 <= j < n implies r@[j] == zero_block() by {
            assert(blocks@[j]@ == zero_block());
        }
        r
    }

    pub fn len(&self) -> (r: usize)
        ensures
            r == self@.len(),
    {
        self.blocks.len()
    }

    /// Read block `bno`: a copy of its current content.
    pub fn read(&self, bno: usize) -> (r: Block)
        requires
            self.wf(),
            bno < self@.len(),
        ensures
            r.wf(),
            r@ == self@[bno as int],
    {
        proof {
            assert(self@[bno as int].len() == crate::BSIZE);
        }
        self.blocks[bno].duplicate()
    }

    /// Write block `bno` whole. This is the unit of durability: a crash
    /// falls between two such writes, never inside one.
    pub fn write(&mut self, bno: usize, b: Block)
        requires
            old(self).wf(),
            bno < old(self)@.len(),
            b.wf(),
        ensures
            final(self).wf(),
            final(self)@ == old(self)@.update(bno as int, b@),
    {
        self.blocks.set(bno, b);
        assert(self@ =~= old(self)@.update(bno as int, b@));
    }
}

} // verus!
