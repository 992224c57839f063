//! Write-ahead log with group commit and crash recovery.
//!
//! The log owns a region of `size` blocks on the device: the header block at
//! `start`, then `size - 1` data slots. A transaction group records modified
//! blocks in memory (`logged`); when the last outstanding operation ends, the
//! group commits: the recorded blocks are copied to the log slots, the header
//! is written with their count and home block numbers (the atomicity point),
//! the blocks are installed to their home locations, and the header is zeroed.
//! Recovery at mount replays an interrupted install from the header.

use vstd::prelude::*;

verus! {

use crate::block::{Block, le32, le_byte, zero_block, lemma_le32_of_le_bytes};
use crate::disk::Disk;
use crate::{BSIZE, MAXOPBLOCKS, FsError};

/// One block recorded for the current commit group: its home block number
/// and the content to make durable.
pub struct LoggedBlock {
    pub bno: u32,
    pub data: Block,
}

/// In-memory state of the log of one device.
pub struct Log {
    dev: u32,
    start: u32,
    size: u32,
    disk_size: u32,
    outstanding: u32,
    committing: bool,
    logged: Vec<LoggedBlock>,
}

// ---------------------------------------------------------------------------
// Spec-level model of the on-disk effects of commit and recovery.
// ---------------------------------------------------------------------------

/// Content of the log header block: a little-endian count, then one
/// little-endian block number per entry; the rest zero.
pub open spec fn hdr_block(n: u32, bnos: Seq<u32>) -> Seq<u8> {
    Seq::new(
        BSIZE as nat,
        |i: int|
            if i < 4 {
                le_byte(n, i)
            } else if i < 4 + 4 * bnos.len() {
                le_byte(bnos[(i - 4) / 4], (i - 4) % 4)
            } else {
                0u8
            },
    )
}

/// The count the on-disk header at `start` holds.
pub open spec fn hdr_count(d: Seq<Seq<u8>>, start: int) -> u32 {
    le32(d[start], 0)
}

/// Entry `i` of the on-disk header at `start`.
pub open spec fn hdr_entry(d: Seq<Seq<u8>>, start: int, i: int) -> u32 {
    le32(d[start], 4 + 4 * i)
}

/// The first `n` entries of the on-disk header.
pub open spec fn hdr_entries(d: Seq<Seq<u8>>, start: int, n: int) -> Seq<u32> {
    Seq::new(n as nat, |i: int| hdr_entry(d, start, i))
}

/// The contents of the first `n` log data slots.
pub open spec fn log_slots(d: Seq<Seq<u8>>, start: int, n: int) -> Seq<Seq<u8>> {
    Seq::new(n as nat, |i: int| d[start + 1 + i])
}

/// A header the geometry admits: count within the log's data slots, every
/// entry a real block outside the log region and the boot/superblock pair.
pub open spec fn hdr_valid(d: Seq<Seq<u8>>, start: int, size: int) -> bool {
    let n = hdr_count(d, start) as int;
    &&& n <= size - 1
    &&& forall|i: int|
        0 <= i < n ==> {
            let e = #[trigger] hdr_entry(d, start, i) as int;
            2 <= e < d.len() && !(start <= e < start + size)
        }
}

/// Disk after the first `k` recorded blocks' contents were copied into the
/// log data slots, in order.
pub open spec fn with_log_slots(
    d: Seq<Seq<u8>>,
    start: int,
    datas: Seq<Seq<u8>>,
    k: int,
) -> Seq<Seq<u8>>
    decreases k,
{
    if k <= 0 {
        d
    } else {
        with_log_slots(d, start, datas, k - 1).update(start + k, datas[k - 1])
    }
}

/// Disk after the first `k` recorded blocks were installed to their home
/// locations, in order.
pub open spec fn with_installed(
    d: Seq<Seq<u8>>,
    bnos: Seq<u32>,
    datas: Seq<Seq<u8>>,
    k: int,
) -> Seq<Seq<u8>>
    decreases k,
{
    if k <= 0 {
        d
    } else {
        with_installed(d, bnos, datas, k - 1).update(bnos[k - 1] as int, datas[k - 1])
    }
}

/// Disk after a full commit of the group `(bnos, datas)`: log slots filled,
/// header written (the atomicity point), blocks installed, header zeroed.
pub open spec fn committed(
    d: Seq<Seq<u8>>,
    start: int,
    bnos: Seq<u32>,
    datas: Seq<Seq<u8>>,
) -> Seq<Seq<u8>> {
    let n = bnos.len() as int;
    let slots_written = with_log_slots(d, start, datas, n);
    let hdr_written = slots_written.update(start, hdr_block(bnos.len() as u32, bnos));
    let installed = with_installed(hdr_written, bnos, datas, n);
    installed.update(start, hdr_block(0, Seq::empty()))
}

/// Disk after recovery: if the header count is zero nothing was pending;
/// otherwise the recorded blocks are installed from the log slots and the
/// header is zeroed.
pub open spec fn recovered(d: Seq<Seq<u8>>, start: int) -> Seq<Seq<u8>> {
    let n = hdr_count(d, start) as int;
    if n == 0 {
        d
    } else {
        with_installed(d, hdr_entries(d, start, n), log_slots(d, start, n), n).update(
            start,
            hdr_block(0, Seq::empty()),
        )
    }
}

// ---------------------------------------------------------------------------
// The log's in-memory view and invariant.
// ---------------------------------------------------------------------------

impl Log {
    /// Home block numbers of the current commit group, in recording order.
    pub closed spec fn bnos(&self) -> Seq<u32> {
        self.logged@.map_values(|lb: LoggedBlock| lb.bno)
    }

    /// Recorded contents, positionally matching `bnos`.
    pub closed spec fn datas(&self) -> Seq<Seq<u8>> {
        self.logged@.map_values(|lb: LoggedBlock| lb.data@)
    }

    pub closed spec fn spec_dev(&self) -> u32 {
        self.dev
    }

    pub closed spec fn spec_start(&self) -> u32 {
        self.start
    }

    pub closed spec fn spec_size(&self) -> u32 {
        self.size
    }

    pub closed spec fn spec_disk_size(&self) -> u32 {
        self.disk_size
    }

    pub closed spec fn spec_outstanding(&self) -> u32 {
        self.outstanding
    }

    pub closed spec fn spec_committing(&self) -> bool {
        self.committing
    }

    /// Number of data slots the log region offers one commit group.
    pub open spec fn capacity(&self) -> int {
        self.spec_size() as int - 1
    }

    /// A block number the log may record: a real block, not the boot block,
    /// not the superblock, and not inside the log region itself.
    pub open spec fn ok_target(&self, bno: u32) -> bool {
        &&& 2 <= bno < self.spec_disk_size()
        &&& !(self.spec_start() <= bno < self.spec_start() as int + self.spec_size() as int)
    }

    pub open spec fn wf(&self) -> bool {
        &&& 2 <= self.spec_start()
        &&& 2 <= self.spec_size()
        &&& self.spec_start() as int + self.spec_size() as int <= self.spec_disk_size() as int
        &&& 4 + 4 * (self.spec_size() as int - 1) <= BSIZE as int
        &&& self.bnos().len() <= self.capacity()
        &&& self.datas().len() == self.bnos().len()
        &&& self.spec_outstanding() as int * MAXOPBLOCKS as int <= self.capacity()
        &&& forall|i: int, j: int|
            0 <= i < j < self.bnos().len() ==> self.bnos()[i] != self.bnos()[j]
        &&& forall|i: int| 0 <= i < self.bnos().len() ==> self.ok_target(#[trigger] self.bnos()[i])
        &&& forall|i: int| 0 <= i < self.datas().len() ==> (#[trigger] self.datas()[i]).len() == BSIZE
    }

    /// Same geometry, before and after an operation.
    pub open spec fn same_config(pre: Log, post: Log) -> bool {
        &&& post.spec_dev() == pre.spec_dev()
        &&& post.spec_start() == pre.spec_start()
        &&& post.spec_size() == pre.spec_size()
        &&& post.spec_disk_size() == pre.spec_disk_size()
    }

    /// Whether `bno` is already recorded in the current group.
    pub open spec fn has(&self, bno: u32) -> bool {
        self.bnos().contains(bno)
    }

    /// Index of `bno` in the group (meaningful when `has(bno)` and the
    /// group's block numbers are distinct).
    pub open spec fn idx(&self, bno: u32) -> int {
        choose|j: int| 0 <= j < self.bnos().len() && self.bnos()[j] == bno
    }

    /// Recorded content of `bno`.
    pub open spec fn data_of(&self, bno: u32) -> Seq<u8> {
        self.datas()[self.idx(bno)]
    }

    /// The content block `bno` logically has inside the open group: the
    /// recorded content if any, else what the disk holds.
    pub open spec fn view_of(&self, d: Seq<Seq<u8>>, bno: u32) -> Seq<u8> {
        if self.has(bno) {
            self.data_of(bno)
        } else {
            d[bno as int]
        }
    }

    /// A new operation may be admitted: no commit in progress, and the
    /// worst case of every admitted operation still fits the log.
    pub open spec fn can_begin(&self) -> bool {
        &&& !self.spec_committing()
        &&& self.bnos().len() + (self.spec_outstanding() as int + 1) * MAXOPBLOCKS as int
            <= self.capacity()
    }

    /// Relation between the log before and after `write(bno, data)`:
    /// a repeated block is absorbed in place, a new block takes one slot.
    pub open spec fn write_post(pre: Log, post: Log, bno: u32, data: Seq<u8>) -> bool {
        &&& Log::same_config(pre, post)
        &&& post.spec_outstanding() == pre.spec_outstanding()
        &&& post.spec_committing() == pre.spec_committing()
        &&& if pre.has(bno) {
            &&& post.bnos() == pre.bnos()
            &&& post.datas() == pre.datas().update(pre.idx(bno), data)
        } else {
            &&& post.bnos() == pre.bnos().push(bno)
            &&& post.datas() == pre.datas().push(data)
        }
    }

    /// Relation between log and disk before and after `end_op`: the last
    /// close of a group with recorded blocks commits them all at once;
    /// any earlier close changes nothing on disk.
    pub open spec fn end_post(pre: Log, post: Log, dpre: Seq<Seq<u8>>, dpost: Seq<Seq<u8>>) -> bool {
        &&& Log::same_config(pre, post)
        &&& post.spec_outstanding() == pre.spec_outstanding() - 1
        &&& !post.spec_committing()
        &&& if pre.spec_outstanding() > 1 {
            &&& post.bnos() == pre.bnos()
            &&& post.datas() == pre.datas()
            &&& dpost == dpre
        } else {
            &&& post.bnos().len() == 0
            &&& if pre.bnos().len() == 0 {
                dpost == dpre
            } else {
                dpost == committed(dpre, pre.spec_start() as int, pre.bnos(), pre.datas())
            }
        }
    }
}

// ---------------------------------------------------------------------------
// Facts about the disk-effect spec functions.
// ---------------------------------------------------------------------------

/// Filling log slots keeps the disk length and touches only the slots.
pub proof fn lemma_with_log_slots_frame(
    d: Seq<Seq<u8>>,
    start: int,
    datas: Seq<Seq<u8>>,
    k: int,
    t: int,
)
    requires
        0 <= k,
        0 <= start,
        start + k < d.len(),
        0 <= t < d.len(),
        !(start + 1 <= t <= start + k),
    ensures
        with_log_slots(d, start, datas, k).len() == d.len(),
        with_log_slots(d, start, datas, k)[t] == d[t],
    decreases k,
{
    if k > 0 {
        lemma_with_log_slots_frame(d, start, datas, k - 1, t);
    }
}

/// Length alone, for any index.
pub proof fn lemma_with_log_slots_len(d: Seq<Seq<u8>>, start: int, datas: Seq<Seq<u8>>, k: int)
    requires
        0 <= k,
        0 <= start,
        start + k < d.len(),
    ensures
        with_log_slots(d, start, datas, k).len() == d.len(),
    decreases k,
{
    if k > 0 {
        lemma_with_log_slots_len(d, start, datas, k - 1);
    }
}

/// Slot `i` holds `datas[i]` once at least `i + 1` slots are filled.
pub proof fn lemma_with_log_slots_at(
    d: Seq<Seq<u8>>,
    start: int,
    datas: Seq<Seq<u8>>,
    k: int,
    i: int,
)
    requires
        0 <= i < k,
        0 <= start,
        start + k < d.len(),
    ensures
        with_log_slots(d, start, datas, k)[start + 1 + i] == datas[i],
    decreases k,
{
    lemma_with_log_slots_len(d, start, datas, k - 1);
    if i == k - 1 {
    } else {
        lemma_with_log_slots_at(d, start, datas, k - 1, i);
    }
}

/// Installing keeps the disk length and touches only the installed targets.
pub proof fn lemma_with_installed_frame(
    d: Seq<Seq<u8>>,
    bnos: Seq<u32>,
    datas: Seq<Seq<u8>>,
    k: int,
    t: int,
)
    requires
        0 <= k <= bnos.len(),
        forall|i: int| 0 <= i < k ==> 0 <= #[trigger] bnos[i] < d.len(),
        0 <= t < d.len(),
        forall|i: int| 0 <= i < k ==> #[trigger] bnos[i] as int != t,
    ensures
        with_installed(d, bnos, datas, k).len() == d.len(),
        with_installed(d, bnos, datas, k)[t] == d[t],
    decreases k,
{
    if k > 0 {
        lemma_with_installed_frame(d, bnos, datas, k - 1, t);
    }
}

/// Length alone.
pub proof fn lemma_with_installed_len(d: Seq<Seq<u8>>, bnos: Seq<u32>, datas: Seq<Seq<u8>>, k: int)
    requires
        0 <= k <= bnos.len(),
        forall|i: int| 0 <= i < k ==> 0 <= #[trigger] bnos[i] < d.len(),
    ensures
        with_installed(d, bnos, datas, k).len() == d.len(),
    decreases k,
{
    if k > 0 {
        lemma_with_installed_len(d, bnos, datas, k - 1);
    }
}

/// With distinct targets, each installed block holds its recorded content.
pub proof fn lemma_with_installed_at(
    d: Seq<Seq<u8>>,
    bnos: Seq<u32>,
    datas: Seq<Seq<u8>>,
    k: int,
    i: int,
)
    requires
        0 <= i < k <= bnos.len(),
        forall|m: int| 0 <= m < k ==> 0 <= #[trigger] bnos[m] < d.len(),
        forall|m: int, j: int| 0 <= m < j < k ==> bnos[m] != bnos[j],
    ensures
        with_installed(d, bnos, datas, k)[bnos[i] as int] == datas[i],
    decreases k,
{
    lemma_with_installed_len(d, bnos, datas, k - 1);
    if i == k - 1 {
    } else {
        lemma_with_installed_at(d, bnos, datas, k - 1, i);
        assert(bnos[k - 1] != bnos[i]);
    }
}

/// The header block starts with its count.
pub proof fn lemma_hdr_block_count(n: u32, bnos: Seq<u32>)
    ensures
        le32(hdr_block(n, bnos), 0) == n,
{
    lemma_le32_of_le_bytes(hdr_block(n, bnos), 0, n);
}

/// Entry `i` of the header block decodes to `bnos[i]`.
pub proof fn lemma_hdr_block_entry(n: u32, bnos: Seq<u32>, i: int)
    requires
        0 <= i < bnos.len(),
        4 + 4 * bnos.len() <= BSIZE,
    ensures
        le32(hdr_block(n, bnos), 4 + 4 * i) == bnos[i],
{
    assert forall|k: int| 0 <= k < 4 implies hdr_block(n, bnos)[4 + 4 * i + k] == le_byte(
        bnos[i],
        k,
    ) by {
        vstd::arithmetic::div_mod::lemma_fundamental_div_mod_converse(4 * i + k, 4, i, k);
    }
    lemma_le32_of_le_bytes(hdr_block(n, bnos), 4 + 4 * i, bnos[i]);
}

/// A header with count zero and no entries is an all-zero block.
pub proof fn lemma_hdr_block_zero()
    ensures
        hdr_block(0, Seq::<u32>::empty()) == zero_block(),
{
    assert(0u32 & 0xff == 0 && (0u32 >> 8u32) & 0xff == 0 && (0u32 >> 16u32) & 0xff == 0 && (0u32
        >> 24u32) & 0xff == 0) by (bit_vector);
    assert(hdr_block(0, Seq::<u32>::empty()) =~= zero_block());
}

/// A block of zeroes decodes as count zero.
pub proof fn lemma_zero_block_count(d: Seq<Seq<u8>>, start: int)
    requires
        0 <= start < d.len(),
        d[start] == hdr_block(0, Seq::<u32>::empty()),
    ensures
        hdr_count(d, start) == 0,
{
    lemma_hdr_block_count(0, Seq::<u32>::empty());
}

// ---------------------------------------------------------------------------
// Executable log operations.
// ---------------------------------------------------------------------------

/// The all-zero header block that marks the log empty.
fn zero_header_block() -> (b: Block)
    ensures
        b.wf(),
        b@ == hdr_block(0, Seq::<u32>::empty()),
{
    let b = Block::zeroed();
    proof {
        lemma_hdr_block_zero();
    }
    b
}

impl Log {
    /// A fresh log for the region `[start, start + size)` of a device of
    /// `disk_size` blocks, with no open operations and nothing recorded.
    pub fn new(dev: u32, start: u32, size: u32, disk_size: u32) -> (r: Log)
        requires
            2 <= start,
            2 <= size,
            start as int + size as int <= disk_size as int,
            4 + 4 * (size as int - 1) <= BSIZE as int,
        ensures
            r.wf(),
            r.spec_start() == start,
            r.spec_size() == size,
            r.spec_disk_size() == disk_size,
            r.spec_outstanding() == 0,
            !r.spec_committing(),
            r.bnos().len() == 0,
    {
        let r = Log {
            dev,
            start,
            size,
            disk_size,
            outstanding: 0,
            committing: false,
            logged: Vec::new(),
        };
        proof {
            assert(r.bnos() =~= Seq::<u32>::empty());
            assert(r.datas() =~= Seq::<Seq<u8>>::empty());
        }
        r
    }

    /// Number of distinct blocks the current commit group holds.
    pub fn group_len(&self) -> (r: usize)
        ensures
            r == self.bnos().len(),
    {
        self.logged.len()
    }

    /// Number of operations admitted and not yet closed.
    pub fn outstanding_count(&self) -> (r: u32)
        ensures
            r == self.spec_outstanding(),
    {
        self.outstanding
    }

    /// A recorded block has a position, and `idx` names one.
    pub proof fn lemma_has_idx(&self, bno: u32)
        requires
            self.has(bno),
        ensures
            0 <= self.idx(bno) < self.bnos().len(),
            self.bnos()[self.idx(bno)] == bno,
    {
        assert(exists|i: int| 0 <= i < self.bnos().len() && self.bnos()[i] == bno);
    }

    /// With distinct recorded block numbers, `idx` is the one position.
    pub proof fn lemma_idx_unique(&self, bno: u32, i: int)
        requires
            self.wf(),
            0 <= i < self.bnos().len(),
            self.bnos()[i] == bno,
        ensures
            self.idx(bno) == i,
    {
        let j = self.idx(bno);
        assert(0 <= j < self.bnos().len() && self.bnos()[j] == bno) by {
            assert(0 <= i < self.bnos().len() && self.bnos()[i] == bno);
        }
        if i < j {
            assert(self.bnos()[i] != self.bnos()[j]);
        } else if j < i {
            assert(self.bnos()[j] != self.bnos()[i]);
        }
    }

    /// Register one more outstanding operation, unless a commit is in
    /// progress or admitting it could overflow the log's capacity. In the
    /// kernel a refused operation blocks and retries; here refusal is
    /// returned so the caller can wait.
    pub fn begin_op(&mut self) -> (admitted: bool)
        requires
            old(self).wf(),
        ensures
            final(self).wf(),
            admitted == old(self).can_begin(),
            admitted ==> Log::same_config(*old(self), *final(self))
                && final(self).spec_outstanding() == old(self).spec_outstanding() + 1
                && final(self).spec_committing() == old(self).spec_committing()
                && final(self).bnos() == old(self).bnos()
                && final(self).datas() == old(self).datas(),
            !admitted ==> *final(self) == *old(self),
    {
        if self.committing {
            return false;
        }
        let cap = self.size as usize - 1;
        let reserved = (self.outstanding as usize + 1) * MAXOPBLOCKS;
        if self.logged.len() + reserved <= cap {
            self.outstanding = self.outstanding + 1;
            proof {
                assert(2 <= self.spec_start());
                assert(self.spec_start() as int + self.spec_size() as int
                    <= self.spec_disk_size() as int);
                assert(self.bnos() == old(self).bnos());
                assert(self.datas() == old(self).datas());
                assert(self.bnos().len() <= self.capacity());
                assert(self.spec_outstanding() as int * MAXOPBLOCKS as int <= self.capacity());
                assert(forall|i: int, j: int|
                    0 <= i < j < self.bnos().len() ==> self.bnos()[i] != self.bnos()[j]);
                assert(forall|i: int|
                    0 <= i < self.bnos().len() ==> self.ok_target(#[trigger] self.bnos()[i]));
                assert(forall|i: int|
                    0 <= i < self.datas().len() ==> (#[trigger] self.datas()[i]).len() == BSIZE);
            }
            true
        } else {
            false
        }
    }

    /// Find the position of `bno` in the current group, if recorded.
    fn find(&self, bno: u32) -> (r: Option<usize>)
        requires
            self.wf(),
        ensures
            match r {
                Some(i) => i < self.bnos().len() && self.bnos()[i as int] == bno,
                None => !self.has(bno),
            },
    {
        let mut i: usize = 0;
        while i < self.logged.len()
            invariant
                self.wf(),
                i <= self.logged.len(),
                forall|j: int| 0 <= j < i ==> self.bnos()[j] != bno,
            decreases self.logged.len() - i,
        {
            if self.logged[i].bno == bno {
                return Some(i);
            }
            i += 1;
        }
        None
    }

    /// Record `data` as the content block `bno` must have after commit.
    /// A block already recorded in this group is absorbed: its slot is
    /// reused and only the content is replaced.
    pub fn write(&mut self, bno: u32, data: Block)
        requires
            old(self).wf(),
            old(self).spec_outstanding() > 0,
            data.wf(),
            old(self).ok_target(bno),
            old(self).has(bno) || old(self).bnos().len() < old(self).capacity(),
        ensures
            final(self).wf(),
            Log::write_post(*old(self), *final(self), bno, data@),
    {
        match self.find(bno) {
            Some(i) => {
                self.logged.set(i, LoggedBlock { bno, data });
                proof {
                    assert(self.bnos() =~= old(self).bnos());
                    old(self).lemma_idx_unique(bno, i as int);
                    assert(self.datas() =~= old(self).datas().update(
                        old(self).idx(bno),
                        data@,
                    ));
                }
            },
            None => {
                self.logged.push(LoggedBlock { bno, data });
                proof {
                    assert(self.bnos() =~= old(self).bnos().push(bno));
                    assert(self.datas() =~= old(self).datas().push(data@));
                }
            },
        }
    }

    /// Read block `bno` as the open group sees it: the recorded content if
    /// this group already wrote it, else the durable content on disk.
    pub fn read(&self, disk: &Disk, bno: u32) -> (r: Block)
        requires
            self.wf(),
            disk.wf(),
            disk@.len() == self.spec_disk_size(),
            bno < disk@.len(),
        ensures
            r.wf(),
            r@ == self.view_of(disk@, bno),
    {
        match self.find(bno) {
            Some(i) => {
                proof {
                    self.lemma_idx_unique(bno, i as int);
                    assert(self.datas()[i as int].len() == BSIZE);
                }
                self.logged[i].data.duplicate()
            },
            None => disk.read(bno as usize),
        }
    }

    /// Copy every recorded block's content into its log data slot.
    fn write_log(&self, disk: &mut Disk)
        requires
            self.wf(),
            old(disk).wf(),
            old(disk)@.len() == self.spec_disk_size(),
        ensures
            final(disk).wf(),
            final(disk)@.len() == old(disk)@.len(),
            final(disk)@ == with_log_slots(
                old(disk)@,
                self.spec_start() as int,
                self.datas(),
                self.bnos().len() as int,
            ),
    {
        let mut i: usize = 0;
        while i < self.logged.len()
            invariant
                self.wf(),
                disk.wf(),
                disk@.len() == self.spec_disk_size(),
                disk@.len() == old(disk)@.len(),
                i <= self.logged.len(),
                disk@ == with_log_slots(
                    old(disk)@,
                    self.spec_start() as int,
                    self.datas(),
                    i as int,
                ),
            decreases self.logged.len() - i,
        {
            proof {
                assert(self.datas()[i as int].len() == BSIZE);
            }
            let data = self.logged[i].data.duplicate();
            disk.write(self.start as usize + 1 + i, data);
            i += 1;
        }
    }

    /// Install every recorded block to its home location.
    fn install_trans(&self, disk: &mut Disk)
        requires
            self.wf(),
            old(disk).wf(),
            old(disk)@.len() == self.spec_disk_size(),
        ensures
            final(disk).wf(),
            final(disk)@ == with_installed(
                old(disk)@,
                self.bnos(),
                self.datas(),
                self.bnos().len() as int,
            ),
            final(disk)@.len() == old(disk)@.len(),
    {
        let mut i: usize = 0;
        while i < self.logged.len()
            invariant
                self.wf(),
                disk.wf(),
                disk@.len() == self.spec_disk_size(),
                i <= self.logged.len(),
                disk@ == with_installed(old(disk)@, self.bnos(), self.datas(), i as int),
            decreases self.logged.len() - i,
        {
            proof {
                assert(self.datas()[i as int].len() == BSIZE);
                assert(self.ok_target(self.bnos()[i as int]));
            }
            let data = self.logged[i].data.duplicate();
            disk.write(self.logged[i].bno as usize, data);
            i += 1;
        }
    }

    /// The header block for the current group: its count and block numbers.
    fn header_block(&self) -> (b: Block)
        requires
            self.wf(),
        ensures
            b.wf(),
            b@ == hdr_block(self.bnos().len() as u32, self.bnos()),
    {
        let mut b = Block::zeroed();
        let n = self.logged.len() as u32;
        b.put_u32(0, n);
        let mut i: usize = 0;
        while i < self.logged.len()
            invariant
                self.wf(),
                b.wf(),
                i <= self.logged.len(),
                n == self.bnos().len(),
                forall|k: int| 0 <= k < 4 ==> b@[k] == le_byte(n, k),
                forall|j: int, k: int|
                    0 <= j < i && 0 <= k < 4 ==> b@[4 + 4 * j + k] == le_byte(
                        self.bnos()[j],
                        k,
                    ),
                forall|m: int| 4 + 4 * i <= m < BSIZE ==> b@[m] == 0u8,
            decreases self.logged.len() - i,
        {
            b.put_u32(4 + 4 * i, self.logged[i].bno);
            i += 1;
        }
        proof {
            let bn = self.bnos();
            assert forall|p: int| 0 <= p < BSIZE implies b@[p] == hdr_block(n, bn)[p] by {
                if p < 4 {
                } else if p < 4 + 4 * bn.len() {
                    let j = (p - 4) / 4;
                    let k = (p - 4) % 4;
                    vstd::arithmetic::div_mod::lemma_fundamental_div_mod(p - 4, 4);
                    assert(4 + 4 * j + k == p);
                    assert(b@[4 + 4 * j + k] == le_byte(bn[j], k));
                }
            }
            assert(b@ =~= hdr_block(n, bn));
        }
        b
    }

    /// Close one operation. The last close of a group with recorded blocks
    /// performs the commit: log slots, header (the atomicity point),
    /// install, header zero, in that order of disk writes.
    pub fn end_op(&mut self, disk: &mut Disk)
        requires
            old(self).wf(),
            old(self).spec_outstanding() > 0,
            !old(self).spec_committing(),
            old(disk).wf(),
            old(disk)@.len() == old(self).spec_disk_size(),
        ensures
            final(self).wf(),
            final(disk).wf(),
            final(disk)@.len() == old(disk)@.len(),
            !final(self).spec_committing(),
            Log::end_post(*old(self), *final(self), old(disk)@, final(disk)@),
    {
        self.outstanding = self.outstanding - 1;
        proof {
            assert(self.bnos() == old(self).bnos());
            assert(self.datas() == old(self).datas());
            assert(self.wf());
        }
        if self.outstanding == 0 && self.logged.len() > 0 {
            self.committing = true;
            proof {
                assert(self.bnos() == old(self).bnos());
                assert(self.datas() == old(self).datas());
                assert(self.wf());
            }
            self.write_log(disk);
            let hdr = self.header_block();
            disk.write(self.start as usize, hdr);
            self.install_trans(disk);
            let zh = zero_header_block();
            disk.write(self.start as usize, zh);
            self.logged = Vec::new();
            self.committing = false;
            proof {
                assert(self.bnos() =~= Seq::<u32>::empty());
                assert(self.datas() =~= Seq::<Seq<u8>>::empty());
                assert(final(disk)@ == committed(
                    old(disk)@,
                    old(self).spec_start() as int,
                    old(self).bnos(),
                    old(self).datas(),
                ));
            }
        }
    }
}

impl Log {
    /// Mount-time recovery: if the on-disk header records a committed group
    /// whose install was interrupted, install it again from the log slots and
    /// zero the header; with a zero count nothing was pending and the disk is
    /// left untouched. A header the geometry cannot admit is an invariant
    /// violation: it is reported and the disk is not touched, so the caller
    /// can halt the device instead of risking corruption.
    pub fn recover(&self, disk: &mut Disk) -> (r: Result<(), FsError>)
        requires
            self.wf(),
            old(disk).wf(),
            old(disk)@.len() == self.spec_disk_size(),
        ensures
            final(disk).wf(),
            final(disk)@.len() == old(disk)@.len(),
            r is Ok <==> hdr_valid(
                old(disk)@,
                self.spec_start() as int,
                self.spec_size() as int,
            ),
            r is Ok ==> final(disk)@ == recovered(old(disk)@, self.spec_start() as int),
            r is Err ==> final(disk)@ == old(disk)@ && r == Result::<(), FsError>::Err(
                FsError::CorruptLogHeader,
            ),
    {
        let ghost d0 = old(disk)@;
        let ghost sstart = self.spec_start() as int;
        let ghost ssize = self.spec_size() as int;
        let start = self.start as usize;
        let hdr = disk.read(start);
        let n = hdr.get_u32(0);
        proof {
            assert(n == hdr_count(d0, sstart));
        }
        if n == 0 {
            return Ok(());
        }
        if n > self.size - 1 {
            return Err(FsError::CorruptLogHeader);
        }
        let n_us = n as usize;
        let mut entries: Vec<u32> = Vec::new();
        let mut i: usize = 0;
        while i < n_us
            invariant
                self.wf(),
                disk.wf(),
                disk@ == d0,
                d0.len() == self.spec_disk_size(),
                hdr@ == d0[sstart],
                hdr.wf(),
                sstart == self.spec_start() as int,
                ssize == self.spec_size() as int,
                i <= n_us,
                n_us == n,
                1 <= n <= ssize - 1,
                n == hdr_count(d0, sstart),
                entries@.len() == i,
                forall|j: int|
                    0 <= j < i ==> entries@[j] == hdr_entry(d0, sstart, j),
                forall|j: int|
                    0 <= j < i ==> 2 <= #[trigger] entries@[j] && (entries@[j] as int) < d0.len()
                        && !(sstart <= entries@[j] < sstart + ssize),
            decreases n_us - i,
        {
            let e = hdr.get_u32(4 + 4 * i);
            proof {
                assert(e == hdr_entry(d0, sstart, i as int));
            }
            if e < 2 || (e as usize) >= disk.len() || (e >= self.start && e - self.start
                < self.size) {
                proof {
                    assert(!hdr_valid(d0, sstart, ssize));
                }
                return Err(FsError::CorruptLogHeader);
            }
            entries.push(e);
            i += 1;
        }
        proof {
            assert(hdr_valid(d0, sstart, ssize));
        }
        let ghost ee = hdr_entries(d0, sstart, n as int);
        let ghost ss = log_slots(d0, sstart, n as int);
        proof {
            assert(ee =~= entries@);
        }
        let mut i: usize = 0;
        while i < n_us
            invariant
                self.wf(),
                disk.wf(),
                d0.len() == self.spec_disk_size(),
                sstart == self.spec_start() as int,
                ssize == self.spec_size() as int,
                i <= n_us,
                n_us == n,
                start as int == sstart,
                1 <= n <= ssize - 1,
                ee == hdr_entries(d0, sstart, n as int),
                ss == log_slots(d0, sstart, n as int),
                entries@.len() == n,
                ee == entries@,
                forall|j: int|
                    0 <= j < n ==> 2 <= #[trigger] entries@[j] && (entries@[j] as int) < d0.len()
                        && !(sstart <= entries@[j] < sstart + ssize),
                disk@ == with_installed(d0, ee, ss, i as int),
                disk@.len() == d0.len(),
            decreases n_us - i,
        {
            proof {
                assert forall|m: int| 0 <= m < i implies #[trigger] ee[m] as int != sstart + 1
                    + i by {
                    assert(2 <= entries@[m] && !(sstart <= entries@[m] < sstart + ssize));
                }
                lemma_with_installed_frame(d0, ee, ss, i as int, sstart + 1 + i);
            }
            let b = disk.read(start + 1 + i);
            proof {
                assert(b@ == ss[i as int]);
            }
            disk.write(entries[i] as usize, b);
            i += 1;
        }
        let zh = zero_header_block();
        disk.write(start, zh);
        proof {
            assert(final(disk)@ == recovered(d0, sstart));
        }
        Ok(())
    }
}

// ---------------------------------------------------------------------------
// Laws of the log: atomicity across a crash, idempotent recovery,
// absorption, group commit.
// ---------------------------------------------------------------------------

/// The disk as a crash leaves it when the system stops after the commit
/// point (the header write) with only the first `k` blocks installed.
pub open spec fn commit_crash_state(
    d: Seq<Seq<u8>>,
    start: int,
    bnos: Seq<u32>,
    datas: Seq<Seq<u8>>,
    k: int,
) -> Seq<Seq<u8>> {
    let n = bnos.len() as int;
    let slots_written = with_log_slots(d, start, datas, n);
    let hdr_written = slots_written.update(start, hdr_block(bnos.len() as u32, bnos));
    with_installed(hdr_written, bnos, datas, k)
}

/// Recovery of a disk whose header count is zero changes nothing: in
/// particular a second recovery run directly after a first is a no-op.
pub proof fn lemma_recovery_empty_header(d: Seq<Seq<u8>>, start: int)
    requires
        0 <= start < d.len(),
        hdr_count(d, start) == 0,
    ensures
        recovered(d, start) == d,
{
}

/// Idempotent recovery: recovering an already-recovered disk leaves it
/// unchanged, because recovery either did nothing or zeroed the header.
pub proof fn lemma_recovery_idempotent(d: Seq<Seq<u8>>, start: int, size: int)
    requires
        0 <= start < d.len(),
        hdr_valid(d, start, size),
    ensures
        recovered(recovered(d, start), start) == recovered(d, start),
{
    let n = hdr_count(d, start) as int;
    if n != 0 {
        let ee = hdr_entries(d, start, n);
        let ss = log_slots(d, start, n);
        assert forall|i: int| 0 <= i < n implies 0 <= #[trigger] ee[i] < d.len() by {
            let e = hdr_entry(d, start, i) as int;
            assert(2 <= e && e < d.len());
        }
        lemma_with_installed_len(d, ee, ss, n);
        let r = recovered(d, start);
        assert(r[start] == hdr_block(0, Seq::<u32>::empty()));
        lemma_zero_block_count(r, start);
        lemma_recovery_empty_header(r, start);
    }
}

/// Atomicity, before the commit point: however many log slots an
/// interrupted commit managed to fill, every block outside the log region
/// still holds its pre-transaction content, and recovery changes nothing,
/// because the header still reads zero.
pub proof fn lemma_crash_before_commit_point(
    d: Seq<Seq<u8>>,
    start: int,
    size: int,
    datas: Seq<Seq<u8>>,
    k: int,
)
    requires
        2 <= start,
        2 <= size,
        start + size <= d.len(),
        hdr_count(d, start) == 0,
        0 <= k <= size - 1,
    ensures
        forall|t: int|
            0 <= t < d.len() && !(start <= t < start + size) ==> #[trigger] with_log_slots(
                d,
                start,
                datas,
                k,
            )[t] == d[t],
        recovered(with_log_slots(d, start, datas, k), start) == with_log_slots(d, start, datas, k),
{
    let s = with_log_slots(d, start, datas, k);
    assert forall|t: int| 0 <= t < d.len() && !(start <= t < start + size) implies #[trigger] s[t]
        == d[t] by {
        lemma_with_log_slots_frame(d, start, datas, k, t);
    }
    lemma_with_log_slots_frame(d, start, datas, k, start);
    lemma_with_log_slots_len(d, start, datas, k);
    assert(hdr_count(s, start) == 0);
    lemma_recovery_empty_header(s, start);
}

/// Atomicity, at or after the commit point: once the header is durable,
/// recovery after a crash with any number of blocks already installed
/// yields every recorded block with its new content and every other block
/// outside the log region with its pre-transaction content.
pub proof fn lemma_crash_after_commit_point(
    d: Seq<Seq<u8>>,
    start: int,
    size: int,
    bnos: Seq<u32>,
    datas: Seq<Seq<u8>>,
    k: int,
)
    requires
        2 <= start,
        2 <= size,
        start + size <= d.len(),
        4 + 4 * (size - 1) <= BSIZE as int,
        0 < bnos.len() <= size - 1,
        datas.len() == bnos.len(),
        forall|i: int, j: int| 0 <= i < j < bnos.len() ==> bnos[i] != bnos[j],
        forall|i: int|
            0 <= i < bnos.len() ==> 2 <= #[trigger] bnos[i] && (bnos[i] as int) < d.len() && !(
            start <= bnos[i] < start + size),
        0 <= k <= bnos.len(),
    ensures
        hdr_valid(commit_crash_state(d, start, bnos, datas, k), start, size),
        recovered(commit_crash_state(d, start, bnos, datas, k), start).len() == d.len(),
        forall|i: int|
            0 <= i < bnos.len() ==> recovered(commit_crash_state(d, start, bnos, datas, k), start)[
                #[trigger] bnos[i] as int] == datas[i],
        forall|t: int|
            0 <= t < d.len() && !(start <= t < start + size) && (forall|i: int|
                0 <= i < bnos.len() ==> #[trigger] bnos[i] as int != t) ==> #[trigger] recovered(
                commit_crash_state(d, start, bnos, datas, k),
                start,
            )[t] == d[t],
        hdr_count(recovered(commit_crash_state(d, start, bnos, datas, k), start), start) == 0,
{
    let n = bnos.len() as int;
    let sa = with_log_slots(d, start, datas, n);
    lemma_with_log_slots_len(d, start, datas, n);
    let sb = sa.update(start, hdr_block(bnos.len() as u32, bnos));
    let sc = commit_crash_state(d, start, bnos, datas, k);
    assert(sc == with_installed(sb, bnos, datas, k));
    lemma_with_installed_len(sb, bnos, datas, k);

    // The installs never touch the log region, so the header and the log
    // slots still hold what the commit wrote.
    assert forall|t: int| 0 <= t < d.len() && start <= t < start + size implies #[trigger] sc[t]
        == sb[t] by {
        lemma_with_installed_frame(sb, bnos, datas, k, t);
    }
    assert(sc[start] == hdr_block(bnos.len() as u32, bnos));
    lemma_hdr_block_count(bnos.len() as u32, bnos);
    assert(hdr_count(sc, start) == bnos.len());
    assert forall|i: int| 0 <= i < n implies #[trigger] hdr_entry(sc, start, i) == bnos[i] by {
        lemma_hdr_block_entry(bnos.len() as u32, bnos, i);
    }
    assert(hdr_valid(sc, start, size));

    let ee = hdr_entries(sc, start, n);
    let ss = log_slots(sc, start, n);
    assert(ee =~= bnos);
    assert forall|i: int| 0 <= i < n implies #[trigger] ss[i] == datas[i] by {
        assert(sc[start + 1 + i] == sb[start + 1 + i]);
        assert(sb[start + 1 + i] == sa[start + 1 + i]);
        lemma_with_log_slots_at(d, start, datas, n, i);
    }
    assert(ss =~= datas);

    let r = recovered(sc, start);
    assert(r == with_installed(sc, bnos, datas, n).update(start, hdr_block(0, Seq::empty())));
    lemma_with_installed_len(sc, bnos, datas, n);

    assert forall|i: int| 0 <= i < bnos.len() implies r[#[trigger] bnos[i] as int] == datas[i] by {
        lemma_with_installed_at(sc, bnos, datas, n, i);
        assert(bnos[i] as int != start);
    }

    assert forall|t: int|
        0 <= t < d.len() && !(start <= t < start + size) && (forall|i: int|
            0 <= i < bnos.len() ==> #[trigger] bnos[i] as int != t) implies #[trigger] r[t]
        == d[t] by {
        lemma_with_installed_frame(sc, bnos, datas, n, t);
        lemma_with_installed_frame(sb, bnos, datas, k, t);
        lemma_with_log_slots_frame(d, start, datas, n, t);
    }

    assert(r[start] == hdr_block(0, Seq::<u32>::empty()));
    lemma_zero_block_count(r, start);
}

/// After the final header-zero write of a commit, recovery is a no-op:
/// the committed disk needs no replay.
pub proof fn lemma_committed_recovery_noop(
    d: Seq<Seq<u8>>,
    start: int,
    bnos: Seq<u32>,
    datas: Seq<Seq<u8>>,
)
    requires
        0 <= start,
        start + bnos.len() < d.len(),
        forall|i: int| 0 <= i < bnos.len() ==> 0 <= #[trigger] bnos[i] < d.len(),
    ensures
        hdr_count(committed(d, start, bnos, datas), start) == 0,
        recovered(committed(d, start, bnos, datas), start) == committed(d, start, bnos, datas),
{
    let n = bnos.len() as int;
    lemma_with_log_slots_len(d, start, datas, n);
    let sa = with_log_slots(d, start, datas, n);
    let sb = sa.update(start, hdr_block(bnos.len() as u32, bnos));
    lemma_with_installed_len(sb, bnos, datas, n);
    let c = committed(d, start, bnos, datas);
    assert(c[start] == hdr_block(0, Seq::<u32>::empty()));
    lemma_zero_block_count(c, start);
    lemma_recovery_empty_header(c, start);
}

/// Absorption: recording a block that the open group already holds reuses
/// its slot, so recording the same block any number of times costs one
/// slot; a new block costs exactly one.
pub proof fn lemma_absorption(pre: Log, mid: Log, post: Log, bno: u32, d1: Seq<u8>, d2: Seq<u8>)
    requires
        Log::write_post(pre, mid, bno, d1),
        Log::write_post(mid, post, bno, d2),
    ensures
        mid.has(bno),
        post.bnos() == mid.bnos(),
        mid.bnos().len() <= pre.bnos().len() + 1,
        post.bnos().len() <= pre.bnos().len() + 1,
{
    if !pre.has(bno) {
        assert(mid.bnos()[pre.bnos().len() as int] == bno);
    }
}

/// Once a group holds as many distinct blocks as the log has data slots,
/// no further operation is admitted until the group commits.
pub proof fn lemma_full_group_blocks_begin(l: Log)
    requires
        l.wf(),
        l.bnos().len() == l.capacity(),
    ensures
        !l.can_begin(),
{
}

/// Group commit: with two operations open on a non-empty group, the first
/// close writes nothing to disk and keeps the group intact; the second
/// close performs exactly one commit covering the union of both
/// operations' recorded blocks.
pub proof fn lemma_group_commit(
    l0: Log,
    l1: Log,
    l2: Log,
    d0: Seq<Seq<u8>>,
    d1: Seq<Seq<u8>>,
    d2: Seq<Seq<u8>>,
)
    requires
        l0.spec_outstanding() == 2,
        l0.bnos().len() > 0,
        Log::end_post(l0, l1, d0, d1),
        Log::end_post(l1, l2, d1, d2),
    ensures
        d1 == d0,
        l1.bnos() == l0.bnos(),
        l1.datas() == l0.datas(),
        d2 == committed(d0, l0.spec_start() as int, l0.bnos(), l0.datas()),
        l2.bnos().len() == 0,
{
}

} // verus!
