//! Crash-recoverable file-system core for a teaching kernel: a write-ahead
//! log with group commit and recovery, a bitmap block allocator, an inode
//! layer with direct and indirect addressing, directories, and path
//! resolution, all operating on an in-memory model of a raw block device.

use vstd::prelude::*;

pub mod block;
pub mod disk;
pub mod log;
pub mod fs;
pub mod bitmap;
pub mod inode;
pub mod dir;
pub mod page;
pub mod itable;
pub mod path;

verus! {

/// Size of one disk block in bytes.
pub const BSIZE: usize = 1024;

/// Root directory inode number.
pub const ROOTINO: u32 = 1;

/// Number of direct block pointers in an inode.
pub const NDIRECT: usize = 12;

/// Number of block pointers held by the single indirect block.
pub const NINDIRECT: usize = BSIZE / 4;

/// Maximum number of data blocks a file can address.
pub const MAXFILE: usize = NDIRECT + NINDIRECT;

/// Worst-case number of distinct blocks one operation may record.
pub const MAXOPBLOCKS: usize = 10;

/// Bitmap bits per bitmap block.
pub const BPB: usize = BSIZE * 8;

/// Bytes of one on-disk inode record.
pub const DINODE_SIZE: usize = 128;

/// Inodes per block of the inode region.
pub const IPB: usize = BSIZE / DINODE_SIZE;

/// Maximum length of a directory-entry name, in bytes.
pub const DIRSIZ: usize = 14;

/// Bytes of one on-disk directory entry: a 4-byte inode number, a name,
/// and padding so an entry never straddles a block boundary.
pub const DIRENT_SIZE: usize = 32;

/// Capacity of the in-memory inode table.
pub const NINODE: usize = 50;

/// Inode type tag: a free on-disk inode slot.
pub const T_FREE: u32 = 0;

/// Inode type tag: a directory.
pub const T_DIR: u32 = 1;

/// Inode type tag: an ordinary file.
pub const T_FILE: u32 = 2;

/// Inode type tag: a device node.
pub const T_DEVICE: u32 = 3;

/// Failure outcomes surfaced by the file-system core. Resource exhaustion
/// and malformed input are ordinary failures for the caller; the invariant
/// violations mark states where continuing would risk silent corruption.
#[derive(Clone, Copy, PartialEq, Eq, Structural, Debug)]
pub enum FsError {
    /// No free data block remains on the device.
    OutOfBlocks,
    /// No free on-disk inode remains.
    OutOfInodes,
    /// A block was asked to be freed whose bitmap bit is already clear.
    FreeingFreeBlock,
    /// A block number outside the data region was handed to the allocator.
    BlockOutOfRange,
    /// One operation tried to record more distinct blocks than the log can
    /// reserve for it: a violation of the per-operation block budget.
    TransactionTooLarge,
    /// The on-disk log header holds a count or entry that geometry forbids.
    CorruptLogHeader,
    /// A read or write would exceed the maximum file size.
    FileTooLarge,
    /// A directory-entry name is longer than `DIRSIZ` bytes.
    NameTooLong,
    /// A path component or directory entry was not found.
    NotFound,
    /// The name being inserted is already present in the directory.
    AlreadyExists,
    /// A path component that must be a directory is not one.
    NotADirectory,
}

} // verus!
