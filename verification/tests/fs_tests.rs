//! Allocator, inode and directory behaviour over a small device.

use kfs::block::Block;
use kfs::disk::Disk;
use kfs::fs::{FileSystem, Superblock};
use kfs::inode::Dinode;
use kfs::{FsError, BSIZE, DIRENT_SIZE, MAXFILE, T_DIR, T_FILE};

fn small_sb() -> Superblock {
    Superblock {
        size: 64,
        nlog: 32,
        logstart: 2,
        inodestart: 34,
        ninodes: 16,
        bmapstart: 36,
        dstart: 37,
    }
}

fn fresh_fs() -> FileSystem {
    FileSystem::init(0, small_sb(), Disk::new(64)).unwrap()
}

fn name(s: &str) -> Vec<u8> {
    s.as_bytes().to_vec()
}

#[test]
fn alloc_scans_lowest_free_bit_first() {
    // Free blocks only at positions 5, 9 and 12 of the tracked data range:
    // three allocations must claim them in exactly that order.
    let mut d = Disk::new(64);
    let mut bm = Block::zeroed();
    bm.set_byte(0, 0xDF); // bits 0..=7 set, except bit 5
    bm.set_byte(1, 0xED); // bits 8..=15 set, except bits 9 and 12
    bm.set_byte(2, 0xFF); // bits 16..=23 set
    bm.set_byte(3, 0x07); // bits 24..=26 set (the device tracks 27 blocks)
    d.write(36, bm);
    let mut fs = FileSystem::init(0, small_sb(), d).unwrap();
    let t = fs.begin_transaction(0).unwrap();
    let dstart = fs.sb.dstart;
    assert_eq!(fs.balloc().unwrap() - dstart, 5);
    assert_eq!(fs.balloc().unwrap() - dstart, 9);
    assert_eq!(fs.balloc().unwrap() - dstart, 12);
    assert_eq!(fs.balloc(), Err(FsError::OutOfBlocks));
    fs.end_transaction(t);
}

#[test]
fn alloc_then_free_restores_bitmap() {
    let mut fs = fresh_fs();
    let t = fs.begin_transaction(0).unwrap();
    let before = fs.read_block(36);
    let b = fs.balloc().unwrap();
    assert_eq!(b, fs.sb.dstart); // lowest block of an empty device
    fs.bfree(b).unwrap();
    let after = fs.read_block(36);
    for i in 0..BSIZE {
        assert_eq!(before.get(i), after.get(i));
    }
    fs.end_transaction(t);
}

#[test]
fn freeing_a_free_block_is_reported() {
    let mut fs = fresh_fs();
    let t = fs.begin_transaction(0).unwrap();
    assert_eq!(fs.bfree(40), Err(FsError::FreeingFreeBlock));
    assert_eq!(fs.bfree(5), Err(FsError::BlockOutOfRange));
    assert_eq!(fs.bfree(64), Err(FsError::BlockOutOfRange));
    fs.end_transaction(t);
}

#[test]
fn allocated_block_comes_back_zeroed() {
    let mut fs = fresh_fs();
    // Leave stale bytes in the first data block, durably.
    let t = fs.begin_transaction(0).unwrap();
    let mut stale = Block::zeroed();
    stale.set_byte(0, 0x77);
    fs.write_block(37, stale);
    fs.end_transaction(t);
    let t = fs.begin_transaction(0).unwrap();
    let b = fs.balloc().unwrap();
    assert_eq!(b, 37);
    let blk = fs.read_block(b);
    for i in 0..BSIZE {
        assert_eq!(blk.get(i), 0);
    }
    fs.end_transaction(t);
}

#[test]
fn ialloc_scans_from_inode_one_and_exhausts() {
    let mut fs = fresh_fs();
    let t = fs.begin_transaction(0).unwrap();
    for expect in 1..16u32 {
        assert_eq!(fs.ialloc(T_FILE).unwrap(), expect);
    }
    assert_eq!(fs.ialloc(T_FILE), Err(FsError::OutOfInodes));
    fs.end_transaction(t);
}

#[test]
fn write_then_read_round_trip() {
    let mut fs = fresh_fs();
    let t = fs.begin_transaction(0).unwrap();
    let ino = fs.ialloc(T_FILE).unwrap();
    let data: Vec<u8> = (0..11u8).map(|i| i * 3 + 1).collect();
    fs.writei(ino, 0, &data).unwrap();
    assert_eq!(fs.read_inode(ino).size, 11);
    let back = fs.readi(ino, 0, 11).unwrap();
    assert_eq!(back, data);
    fs.end_transaction(t);
}

#[test]
fn write_across_a_block_boundary() {
    let mut fs = fresh_fs();
    let t = fs.begin_transaction(0).unwrap();
    let ino = fs.ialloc(T_FILE).unwrap();
    let data: Vec<u8> = (0..1030u32).map(|i| (i % 251) as u8).collect();
    fs.writei(ino, 0, &data).unwrap();
    assert_eq!(fs.read_inode(ino).size, 1030);
    let back = fs.readi(ino, 1019, 11).unwrap();
    assert_eq!(back.len(), 11);
    for k in 0..11usize {
        assert_eq!(back[k], ((1019 + k) % 251) as u8);
    }
    // A read past the end is clamped to the size.
    assert_eq!(fs.readi(ino, 1024, 100).unwrap().len(), 6);
    fs.end_transaction(t);
}

#[test]
fn write_rejects_a_gap_past_the_size() {
    let mut fs = fresh_fs();
    let t = fs.begin_transaction(0).unwrap();
    let ino = fs.ialloc(T_FILE).unwrap();
    assert_eq!(fs.writei(ino, 1, &vec![1u8]), Err(FsError::FileTooLarge));
    fs.end_transaction(t);
}

#[test]
fn size_bound_at_the_largest_file() {
    let mut fs = fresh_fs();
    let t = fs.begin_transaction(0).unwrap();
    let ino = fs.ialloc(T_FILE).unwrap();
    // A file grown to one byte short of the maximum (its blocks may be
    // holes; only the last byte is about to exist).
    let mut d = Dinode {
        typ: T_FILE,
        major: 0,
        minor: 0,
        nlink: 1,
        size: (MAXFILE * BSIZE - 1) as u32,
        addrs: vec![0u32; 13],
    };
    fs.write_inode(ino, &d);
    // Writing the last admissible byte succeeds and the size becomes
    // exactly MAXFILE * BSIZE.
    fs.writei(ino, (MAXFILE * BSIZE - 1) as u32, &vec![0x5A]).unwrap();
    assert_eq!(fs.read_inode(ino).size as usize, MAXFILE * BSIZE);
    // Writing at MAXFILE * BSIZE fails.
    assert_eq!(
        fs.writei(ino, (MAXFILE * BSIZE) as u32, &vec![1u8]),
        Err(FsError::FileTooLarge)
    );
    assert_eq!(fs.read_inode(ino).size as usize, MAXFILE * BSIZE);
    let back = fs.readi(ino, (MAXFILE * BSIZE - 1) as u32, 1).unwrap();
    assert_eq!(back, vec![0x5A]);
    // The hole in the middle of the file reads as zero.
    d.size = fs.read_inode(ino).size;
    assert_eq!(fs.readi(ino, 4096, 1).unwrap(), vec![0]);
    fs.end_transaction(t);
}

#[test]
fn directory_insert_lookup_remove() {
    let mut fs = fresh_fs();
    let t = fs.begin_transaction(0).unwrap();
    let dino = fs.ialloc(T_DIR).unwrap();
    fs.dirlink(dino, &name("hello"), 7).unwrap();
    let (inum, off) = fs.dirlookup(dino, &name("hello")).unwrap();
    assert_eq!(inum, 7);
    assert_eq!(off, 0);
    assert_eq!(fs.dirlookup(dino, &name("other")), Err(FsError::NotFound));
    assert_eq!(fs.dirlink(dino, &name("hello"), 9), Err(FsError::AlreadyExists));
    fs.dirunlink(dino, &name("hello")).unwrap();
    assert_eq!(fs.dirlookup(dino, &name("hello")), Err(FsError::NotFound));
    fs.end_transaction(t);
}

#[test]
fn directory_reuses_freed_slot() {
    // Insert "a", remove it, insert "b": the new entry takes the same
    // on-disk offset and the directory does not grow.
    let mut fs = fresh_fs();
    let t = fs.begin_transaction(0).unwrap();
    let dino = fs.ialloc(T_DIR).unwrap();
    fs.dirlink(dino, &name("a"), 7).unwrap();
    let (_, off_a) = fs.dirlookup(dino, &name("a")).unwrap();
    let size_after_a = fs.read_inode(dino).size;
    fs.dirunlink(dino, &name("a")).unwrap();
    fs.dirlink(dino, &name("b"), 8).unwrap();
    let (inum_b, off_b) = fs.dirlookup(dino, &name("b")).unwrap();
    assert_eq!(inum_b, 8);
    assert_eq!(off_b, off_a);
    assert_eq!(fs.read_inode(dino).size, size_after_a);
    // A further insertion has no free slot and must grow the directory.
    fs.dirlink(dino, &name("c"), 9).unwrap();
    let (_, off_c) = fs.dirlookup(dino, &name("c")).unwrap();
    assert_eq!(off_c as usize, DIRENT_SIZE);
    assert_eq!(fs.read_inode(dino).size as usize, 2 * DIRENT_SIZE);
    fs.end_transaction(t);
}

#[test]
fn directory_rejects_bad_names_and_non_directories() {
    let mut fs = fresh_fs();
    let t = fs.begin_transaction(0).unwrap();
    let dino = fs.ialloc(T_DIR).unwrap();
    let fino = fs.ialloc(T_FILE).unwrap();
    let long = name("a-very-long-name!");
    assert_eq!(fs.dirlink(dino, &long, 3), Err(FsError::NameTooLong));
    assert_eq!(fs.dirlink(fino, &name("x"), 3), Err(FsError::NotADirectory));
    assert_eq!(fs.dirlookup(fino, &name("x")), Err(FsError::NotADirectory));
    fs.end_transaction(t);
}

#[test]
fn commit_persists_directory_across_remount() {
    let mut fs = fresh_fs();
    let t = fs.begin_transaction(0).unwrap();
    let dino = fs.ialloc(T_DIR).unwrap();
    fs.dirlink(dino, &name("file"), 5).unwrap();
    fs.end_transaction(t);
    // Remount from the durable state alone.
    let mut raw = Disk::new(64);
    for bno in 0..64usize {
        raw.write(bno, fs.read_durable(bno as u32));
    }
    let fs2 = FileSystem::init(0, small_sb(), raw).unwrap();
    let (inum, _) = fs2.dirlookup(dino, &name("file")).unwrap();
    assert_eq!(inum, 5);
}
