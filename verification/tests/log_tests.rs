//! Write-ahead log behaviour: durability at commit, crash recovery,
//! absorption, admission and group commit.

use kfs::block::Block;
use kfs::disk::Disk;
use kfs::fs::{FileSystem, Superblock};
use kfs::log::Log;
use kfs::FsError;

fn small_sb() -> Superblock {
    Superblock {
        size: 64,
        nlog: 32,
        logstart: 2,
        inodestart: 34,
        ninodes: 16,
        bmapstart: 36,
        dstart: 37,
    }
}

fn fresh_fs() -> FileSystem {
    FileSystem::init(0, small_sb(), Disk::new(64)).unwrap()
}

fn patterned(b: u8) -> Block {
    let mut blk = Block::zeroed();
    let mut i = 0;
    while i < 1024 {
        blk.set_byte(i, b);
        i += 1;
    }
    blk
}

fn snapshot(d: &Disk) -> Vec<Vec<u8>> {
    let mut out = Vec::new();
    for bno in 0..d.len() {
        let blk = d.read(bno);
        let mut bytes = Vec::new();
        for i in 0..1024 {
            bytes.push(blk.get(i));
        }
        out.push(bytes);
    }
    out
}

#[test]
fn commit_makes_writes_durable() {
    let mut fs = fresh_fs();
    let t = fs.begin_transaction(0).unwrap();
    fs.write_block(40, patterned(0xAB));
    // Before commit the device still holds the old content, while the
    // transaction sees the new one.
    assert_eq!(fs.read_durable(40).get(0), 0);
    assert_eq!(fs.read_block(40).get(0), 0xAB);
    fs.end_transaction(t);
    assert_eq!(fs.read_durable(40).get(0), 0xAB);
    assert_eq!(fs.read_durable(40).get(1023), 0xAB);
    // The on-disk log header reads empty again.
    assert_eq!(fs.read_durable(2).get_u32(0), 0);
}

#[test]
fn recovery_replays_committed_group() {
    // A crash after the header write but before the install: the log slots
    // and the header are durable, the home blocks are not yet written.
    let mut d = Disk::new(64);
    d.write(3, patterned(0x11));
    d.write(4, patterned(0x22));
    let mut hdr = Block::zeroed();
    hdr.put_u32(0, 2);
    hdr.put_u32(4, 40);
    hdr.put_u32(8, 41);
    d.write(2, hdr);
    let fs = FileSystem::init(0, small_sb(), d).unwrap();
    assert_eq!(fs.read_durable(40).get(7), 0x11);
    assert_eq!(fs.read_durable(41).get(7), 0x22);
    assert_eq!(fs.read_durable(2).get_u32(0), 0);
}

#[test]
fn recovery_before_commit_point_is_noop() {
    // A crash while filling the log slots, before the header write: the
    // header still reads zero, so nothing is replayed.
    let mut d = Disk::new(64);
    d.write(3, patterned(0x11));
    d.write(4, patterned(0x22));
    let fs = FileSystem::init(0, small_sb(), d).unwrap();
    assert_eq!(fs.read_durable(40).get(7), 0);
    assert_eq!(fs.read_durable(41).get(7), 0);
}

#[test]
fn recovery_twice_is_noop() {
    let mut d = Disk::new(64);
    d.write(3, patterned(0x33));
    let mut hdr = Block::zeroed();
    hdr.put_u32(0, 1);
    hdr.put_u32(4, 45);
    d.write(2, hdr);
    let log = Log::new(0, 2, 32, 64);
    log.recover(&mut d).unwrap();
    let after_first = snapshot(&d);
    // The second run sees a header count of zero and changes nothing.
    log.recover(&mut d).unwrap();
    let after_second = snapshot(&d);
    assert_eq!(after_first, after_second);
    assert_eq!(d.read(45).get(0), 0x33);
}

#[test]
fn absorption_uses_one_slot() {
    let mut fs = fresh_fs();
    let t = fs.begin_transaction(0).unwrap();
    fs.write_block(40, patterned(0x01));
    assert_eq!(fs.log.group_len(), 1);
    fs.write_block(40, patterned(0x02));
    fs.write_block(40, patterned(0x03));
    assert_eq!(fs.log.group_len(), 1);
    // The last write wins inside the group.
    assert_eq!(fs.read_block(40).get(5), 0x03);
    fs.write_block(41, patterned(0x04));
    assert_eq!(fs.log.group_len(), 2);
    fs.end_transaction(t);
    assert_eq!(fs.read_durable(40).get(5), 0x03);
}

#[test]
fn admission_blocks_when_reservation_exceeds_log() {
    // Capacity is nlog - 1 = 31 slots; each operation reserves 10.
    let mut fs = fresh_fs();
    let t1 = fs.begin_transaction(0).unwrap();
    let t2 = fs.begin_transaction(0).unwrap();
    let t3 = fs.begin_transaction(0).unwrap();
    assert!(fs.begin_transaction(0).is_none());
    fs.end_transaction(t1);
    fs.end_transaction(t2);
    fs.end_transaction(t3);
    assert!(fs.begin_transaction(0).is_some());
}

#[test]
fn admission_blocks_when_group_fills() {
    let mut fs = fresh_fs();
    let t = fs.begin_transaction(0).unwrap();
    // Record 12 distinct blocks: 12 + 2 * 10 > 31, so no second operation
    // is admitted until this group commits.
    for i in 0..12u32 {
        fs.write_block(40 + i, patterned(i as u8));
    }
    assert!(fs.begin_transaction(0).is_none());
    fs.end_transaction(t);
    assert!(fs.begin_transaction(0).is_some());
}

#[test]
fn group_commit_covers_both_transactions() {
    let mut fs = fresh_fs();
    let t1 = fs.begin_transaction(0).unwrap();
    let t2 = fs.begin_transaction(0).unwrap();
    fs.write_block(40, patterned(0x51));
    fs.write_block(41, patterned(0x52));
    // Closing the first transaction writes nothing: the group waits.
    fs.end_transaction(t1);
    assert_eq!(fs.read_durable(40).get(0), 0);
    assert_eq!(fs.read_durable(41).get(0), 0);
    assert_eq!(fs.log.group_len(), 2);
    // Closing the last one commits the union in one pass.
    fs.end_transaction(t2);
    assert_eq!(fs.read_durable(40).get(0), 0x51);
    assert_eq!(fs.read_durable(41).get(0), 0x52);
    assert_eq!(fs.log.group_len(), 0);
    assert_eq!(fs.read_durable(2).get_u32(0), 0);
}

#[test]
fn corrupt_header_count_is_refused() {
    let mut d = Disk::new(64);
    let mut hdr = Block::zeroed();
    hdr.put_u32(0, 40);
    d.write(2, hdr);
    match FileSystem::init(0, small_sb(), d) {
        Err(FsError::CorruptLogHeader) => {}
        _ => panic!("a header count past the log's slots must be refused"),
    }
}

#[test]
fn corrupt_header_entry_is_refused() {
    // An entry pointing into the log region itself can never have been
    // written by a commit.
    let mut d = Disk::new(64);
    let mut hdr = Block::zeroed();
    hdr.put_u32(0, 1);
    hdr.put_u32(4, 5);
    d.write(2, hdr);
    match FileSystem::init(0, small_sb(), d) {
        Err(FsError::CorruptLogHeader) => {}
        _ => panic!("a header entry inside the log region must be refused"),
    }
}

#[test]
fn block_u32_round_trip() {
    let mut blk = Block::zeroed();
    blk.put_u32(100, 0xDEADBEEF);
    assert_eq!(blk.get_u32(100), 0xDEADBEEF);
    assert_eq!(blk.get(100), 0xEF);
    assert_eq!(blk.get(101), 0xBE);
    assert_eq!(blk.get(102), 0xAD);
    assert_eq!(blk.get(103), 0xDE);
    assert_eq!(blk.get(104), 0);
}
