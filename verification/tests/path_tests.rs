//! Path resolution, truncation and the in-memory inode table.

use kfs::disk::Disk;
use kfs::fs::{FileSystem, Superblock};
use kfs::itable::Itable;
use kfs::{FsError, T_DIR, T_FILE, T_FREE};

fn small_sb() -> Superblock {
    Superblock {
        size: 64,
        nlog: 32,
        logstart: 2,
        inodestart: 34,
        ninodes: 16,
        bmapstart: 36,
        dstart: 37,
    }
}

fn fresh_fs() -> FileSystem {
    FileSystem::init(0, small_sb(), Disk::new(64)).unwrap()
}

fn name(s: &str) -> Vec<u8> {
    s.as_bytes().to_vec()
}

/// A file system with `/usr/data`: inode 1 the root, 2 `usr`, 3 `data`.
fn tree() -> FileSystem {
    let mut fs = fresh_fs();
    let t = fs.begin_transaction(0).unwrap();
    let root = fs.ialloc(T_DIR).unwrap();
    assert_eq!(root, 1);
    let usr = fs.ialloc(T_DIR).unwrap();
    let data = fs.ialloc(T_FILE).unwrap();
    fs.dirlink(root, &name("usr"), usr).unwrap();
    fs.dirlink(usr, &name("data"), data).unwrap();
    fs.end_transaction(t);
    fs
}

#[test]
fn resolve_absolute_and_relative() {
    let fs = tree();
    assert_eq!(fs.resolve(1, &name("/usr/data")), Ok(3));
    assert_eq!(fs.resolve(1, &name("usr/data")), Ok(3));
    assert_eq!(fs.resolve(2, &name("data")), Ok(3));
    assert_eq!(fs.resolve(1, &name("/usr")), Ok(2));
    assert_eq!(fs.resolve(1, &name("/usr///data")), Ok(3));
    assert_eq!(fs.resolve(2, &name("/usr")), Ok(2));
}

#[test]
fn resolve_failures() {
    let fs = tree();
    assert_eq!(fs.resolve(1, &name("/nope")), Err(FsError::NotFound));
    assert_eq!(fs.resolve(1, &name("/usr/data/deeper")), Err(FsError::NotADirectory));
    assert_eq!(
        fs.resolve(1, &name("/a-name-that-is-much-too-long")),
        Err(FsError::NameTooLong)
    );
}

#[test]
fn resolve_parent_names_the_directory() {
    let fs = tree();
    let (par, nm) = fs.resolve_parent(1, &name("/usr/data")).unwrap();
    assert_eq!(par, 2);
    assert_eq!(nm, name("data"));
    let (par, nm) = fs.resolve_parent(1, &name("/usr/newfile/")).unwrap();
    assert_eq!(par, 2);
    assert_eq!(nm, name("newfile"));
    let (par, nm) = fs.resolve_parent(2, &name("data")).unwrap();
    assert_eq!(par, 2);
    assert_eq!(nm, name("data"));
    assert_eq!(fs.resolve_parent(1, &name("///")), Err(FsError::NotFound));
    assert_eq!(fs.resolve_parent(1, &name("/nope/x")), Err(FsError::NotFound));
}

#[test]
fn truncate_frees_every_block() {
    let mut fs = fresh_fs();
    let t = fs.begin_transaction(0).unwrap();
    let ino = fs.ialloc(T_FILE).unwrap();
    let data: Vec<u8> = vec![7u8; 2048];
    fs.writei(ino, 0, &data).unwrap();
    // The file owns the two lowest data blocks now.
    assert_eq!(fs.read_inode(ino).addrs[0], 37);
    assert_eq!(fs.read_inode(ino).addrs[1], 38);
    fs.itrunc(ino).unwrap();
    let d = fs.read_inode(ino);
    assert_eq!(d.size, 0);
    for k in 0..13 {
        assert_eq!(d.addrs[k], 0);
    }
    // The freed blocks are allocatable again, lowest first.
    assert_eq!(fs.balloc().unwrap(), 37);
    assert_eq!(fs.balloc().unwrap(), 38);
    fs.end_transaction(t);
}

#[test]
fn itable_shares_and_releases_slots() {
    let mut fs = fresh_fs();
    let t = fs.begin_transaction(0).unwrap();
    let ino = fs.ialloc(T_FILE).unwrap();
    let mut tab = Itable::new();
    let a = tab.get(0, ino).unwrap();
    let b = tab.get(0, ino).unwrap();
    assert_eq!(a, b);
    let c = tab.get(0, ino + 1).unwrap();
    assert_ne!(a, c);
    // Two references: the first release reclaims nothing.
    assert_eq!(tab.put(&mut fs, a), Ok(false));
    fs.end_transaction(t);
}

#[test]
fn last_release_of_unlinked_inode_reclaims_it() {
    let mut fs = fresh_fs();
    let t = fs.begin_transaction(0).unwrap();
    let ino = fs.ialloc(T_FILE).unwrap();
    // A freshly allocated inode has no links yet; give it a data block.
    fs.writei(ino, 0, &vec![9u8; 10]).unwrap();
    assert_eq!(fs.read_inode(ino).addrs[0], 37);
    let mut tab = Itable::new();
    let h = tab.get(0, ino).unwrap();
    assert_eq!(tab.put(&mut fs, h), Ok(true));
    assert_eq!(fs.read_inode(ino).typ, T_FREE);
    // Its block is free again, and so is its inode number.
    assert_eq!(fs.balloc().unwrap(), 37);
    assert_eq!(fs.ialloc(T_FILE).unwrap(), ino);
    fs.end_transaction(t);
}
