//! One disk block held in memory, with little-endian 32-bit field access.

use vstd::prelude::*;

verus! {

use crate::BSIZE;

/// The all-zero content a freshly zeroed block carries.
pub open spec fn zero_block() -> Seq<u8> {
    Seq::new(BSIZE as nat, |i: int| 0u8)
}

/// Little-endian 32-bit value stored at byte offset `off` of `b`.
pub open spec fn le32(b: Seq<u8>, off: int) -> u32 {
    (b[off] as u32) | ((b[off + 1] as u32) << 8u32) | ((b[off + 2] as u32) << 16u32)
        | ((b[off + 3] as u32) << 24u32)
}

/// Byte `k` (0 = least significant) of the little-endian encoding of `v`.
pub open spec fn le_byte(v: u32, k: int) -> u8 {
    if k == 0 {
        (v & 0xff) as u8
    } else if k == 1 {
        ((v >> 8u32) & 0xff) as u8
    } else if k == 2 {
        ((v >> 16u32) & 0xff) as u8
    } else {
        ((v >> 24u32) & 0xff) as u8
    }
}

/// Decoding the four little-endian bytes of `v` yields `v` again.
pub proof fn lemma_le32_of_le_bytes(b: Seq<u8>, off: int, v: u32)
    requires
        b[off] == le_byte(v, 0),
        b[off + 1] == le_byte(v, 1),
        b[off + 2] == le_byte(v, 2),
        b[off + 3] == le_byte(v, 3),
    ensures
        le32(b, off) == v,
{
    assert(((v & 0xff) as u8 as u32) | ((((v >> 8u32) & 0xff) as u8 as u32) << 8u32) | ((((v
        >> 16u32) & 0xff) as u8 as u32) << 16u32) | ((((v >> 24u32) & 0xff) as u8 as u32)
        << 24u32) == v) by (bit_vector);
}

/// A zero block decodes as zero wherever a 32-bit field is read.
pub proof fn lemma_le32_zero(b: Seq<u8>, off: int)
    requires
        b[off] == 0u8,
        b[off + 1] == 0u8,
        b[off + 2] == 0u8,
        b[off + 3] == 0u8,
    ensures
        le32(b, off) == 0,
{
    assert((0u8 as u32) | ((0u8 as u32) << 8u32) | ((0u8 as u32) << 16u32) | ((0u8 as u32)
        << 24u32) == 0u32) by (bit_vector);
}

/// One block's worth of bytes, always exactly `BSIZE` long.
pub struct Block {
    data: Vec<u8>,
}

impl View for Block {
    type V = Seq<u8>;

    closed spec fn view(&self) -> Seq<u8> {
        self.data@
    }
}

impl Block {
    pub open spec fn wf(&self) -> bool {
        self@.len() == BSIZE
    }

    /// A fresh block of `BSIZE` zero bytes.
    pub fn zeroed() -> (r: Block)
        ensures
            r.wf(),
            r@ == zero_block(),
    {
        let mut data: Vec<u8> = Vec::new();
        let mut i: usize = 0;
        while i < BSIZE
            invariant
                i <= BSIZE,
                data@.len() == i,
                forall|j: int| 0 <= j < i ==> data@[j] == 0u8,
            decreases BSIZE - i,
        {
            data.push(0u8);
            i += 1;
        }
        let r = Block { data };
        assert(r@ =~= zero_block());
        r
    }

    /// An independent copy with the same bytes.
    pub fn duplicate(&self) -> (r: Block)
        requires
            self.wf(),
        ensures
            r.wf(),
            r@ == self@,
    {
        let mut data: Vec<u8> = Vec::new();
        let mut i: usize = 0;
        while i < BSIZE
            invariant
                self.wf(),
                i <= BSIZE,
                data@.len() == i,
                forall|j: int| 0 <= j < i ==> data@[j] == self@[j],
            decreases BSIZE - i,
        {
            data.push(self.data[i]);
            i += 1;
        }
        let r = Block { data };
        assert(r@ =~= self@);
        r
    }

    /// Read the byte at offset `i`.
    pub fn get(&self, i: usize) -> (r: u8)
        requires
            self.wf(),
            i < BSIZE,
        ensures
            r == self@[i as int],
    {
        self.data[i]
    }

    /// Replace the byte at offset `i`.
    pub fn set_byte(&mut self, i: usize, v: u8)
        requires
            old(self).wf(),
            i < BSIZE,
        ensures
            final(self).wf(),
            final(self)@ == old(self)@.update(i as int, v),
    {
        self.data.set(i, v);
    }

    /// Read the little-endian 32-bit value at byte offset `off`.
    pub fn get_u32(&self, off: usize) -> (r: u32)
        requires
            self.wf(),
            off + 4 <= BSIZE,
        ensures
            r == le32(self@, off as int),
    {
        let b0 = self.data[off] as u32;
        let b1 = self.data[off + 1] as u32;
        let b2 = self.data[off + 2] as u32;
        let b3 = self.data[off + 3] as u32;
        b0 | (b1 << 8u32) | (b2 << 16u32) | (b3 << 24u32)
    }

    /// Store `v` little-endian at byte offset `off`.
    pub fn put_u32(&mut self, off: usize, v: u32)
        requires
            old(self).wf(),
            off + 4 <= BSIZE,
        ensures
            final(self).wf(),
            forall|k: int| 0 <= k < 4 ==> final(self)@[off + k] == le_byte(v, k),
            forall|i: int|
                0 <= i < BSIZE && !(off <= i < off + 4) ==> final(self)@[i] == old(self)@[i],
            le32(final(self)@, off as int) == v,
    {
        proof {
            assert(v & 0xff < 256 && (v >> 8u32) & 0xff < 256 && (v >> 16u32) & 0xff < 256 && (v
                >> 24u32) & 0xff < 256) by (bit_vector);
        }
        self.data.set(off, (v & 0xff) as u8);
        self.data.set(off + 1, ((v >> 8u32) & 0xff) as u8);
        self.data.set(off + 2, ((v >> 16u32) & 0xff) as u8);
        self.data.set(off + 3, ((v >> 24u32) & 0xff) as u8);
        proof {
            lemma_le32_of_le_bytes(self@, off as int, v);
        }
    }
}

} // verus!
