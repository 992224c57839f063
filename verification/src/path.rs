//! Path resolution: walk `/`-separated components through the directory
//! layer, starting from the root for an absolute path or from the caller's
//! directory for a relative one. `.` and `..` are ordinary directory
//! entries, looked up like any other name.

use vstd::prelude::*;

verus! {

use crate::fs::FileSystem;
use crate::{BSIZE, DIRSIZ, MAXFILE, ROOTINO, T_DIR, FsError};
use crate::dir::EPB;

/// The path separator byte, `/`.
pub const PATH_SEP: u8 = 47;

/// Index of the first separator at or after `i`, or the path's length.
pub open spec fn next_sep(p: Seq<u8>, i: int) -> int
    decreases p.len() - i,
{
    if i < 0 || i >= p.len() {
        p.len() as int
    } else if p[i] == PATH_SEP {
        i
    } else {
        next_sep(p, i + 1)
    }
}

/// The first separator at or after a non-separator position lies strictly
/// past it, within the path, and nothing before it is a separator.
pub proof fn lemma_next_sep(p: Seq<u8>, i: int)
    requires
        0 <= i <= p.len(),
    ensures
        i <= next_sep(p, i) <= p.len(),
        forall|k: int| i <= k < next_sep(p, i) ==> p[k] != PATH_SEP,
        next_sep(p, i) < p.len() ==> p[next_sep(p, i)] == PATH_SEP,
    decreases p.len() - i,
{
    if i < p.len() && p[i] != PATH_SEP {
        lemma_next_sep(p, i + 1);
    }
}

impl FileSystem {
    /// Directory `dd` is corrupt in a way a walk can meet: an impossible
    /// size, a stored pointer the geometry refuses, or a live entry naming
    /// an inode past the table.
    pub open spec fn dir_corrupt(&self, dd: int) -> bool {
        ||| self.inode(dd).size > MAXFILE * BSIZE
        ||| exists|bn2: int| 0 <= bn2 < MAXFILE && #[trigger] self.ptr_bad(dd, bn2)
        ||| exists|e2: int|
            0 <= e2 < self.dir_nentries(dd) && #[trigger] self.dirent_inum(dd, e2)
                >= self.spec_sb().ninodes
    }

    /// The result of looking `nm` up in `dirino`, scanning from entry `e`:
    /// the stored inode number of the first live entry carrying the name.
    pub open spec fn lookup_spec_from(&self, dirino: int, nm: Seq<u8>, e: int) -> Option<u32>
        decreases self.dir_nentries(dirino) - e,
    {
        if e < 0 || e >= self.dir_nentries(dirino) {
            None
        } else if self.dirent_matches(dirino, e, nm) {
            Some(self.dirent_inum(dirino, e))
        } else {
            self.lookup_spec_from(dirino, nm, e + 1)
        }
    }

    /// A first match at `e` decides the lookup.
    pub proof fn lemma_lookup_spec_first(&self, dirino: int, nm: Seq<u8>, e: int, k: int)
        requires
            0 <= k <= e < self.dir_nentries(dirino),
            self.dirent_matches(dirino, e, nm),
            forall|e2: int| k <= e2 < e ==> !self.dirent_matches(dirino, e2, nm),
        ensures
            self.lookup_spec_from(dirino, nm, k) == Some(self.dirent_inum(dirino, e)),
        decreases e - k,
    {
        if k < e {
            self.lemma_lookup_spec_first(dirino, nm, e, k + 1);
        }
    }

    /// With no match anywhere, the lookup yields nothing.
    pub proof fn lemma_lookup_spec_none(&self, dirino: int, nm: Seq<u8>, k: int)
        requires
            0 <= k,
            forall|e2: int|
                k <= e2 < self.dir_nentries(dirino) ==> !self.dirent_matches(dirino, e2, nm),
        ensures
            self.lookup_spec_from(dirino, nm, k) is None,
        decreases self.dir_nentries(dirino) - k,
    {
        if k < self.dir_nentries(dirino) {
            self.lemma_lookup_spec_none(dirino, nm, k + 1);
        }
    }

    /// Resolution of `p` from inode `cur`, starting at byte `i`: skip
    /// separators, look each component up in turn, and yield the inode the
    /// whole path names.
    pub open spec fn walk(&self, cur: u32, p: Seq<u8>, i: int) -> Result<u32, FsError>
        decreases p.len() - i,
    {
        if i < 0 || i >= p.len() {
            Ok(cur)
        } else if p[i] == PATH_SEP {
            self.walk(cur, p, i + 1)
        } else {
            let j = next_sep(p, i);
            if j <= i || j > p.len() {
                Err(FsError::NotFound)
            } else if j - i > DIRSIZ {
                Err(FsError::NameTooLong)
            } else if self.inode(cur as int).typ != T_DIR {
                Err(FsError::NotADirectory)
            } else {
                match self.lookup_spec_from(cur as int, p.subrange(i, j), 0) {
                    Some(inum) => self.walk(inum, p, j),
                    None => Err(FsError::NotFound),
                }
            }
        }
    }

    /// Resolve `path` to an inode number: from the root directory if the
    /// path is absolute, else from `start`. Each component but the last
    /// must name a directory. A validation failure on a corrupt directory
    /// is reported as `BlockOutOfRange`; any other outcome is exactly what
    /// the walk of the path denotes.
    pub fn resolve(&self, start: u32, path: &Vec<u8>) -> (r: Result<u32, FsError>)
        requires
            self.wf(),
            start < self.spec_sb().ninodes,
            ROOTINO < self.spec_sb().ninodes,
        ensures
            r != Result::<u32, FsError>::Err(FsError::BlockOutOfRange) ==> r == self.walk(
                if path@.len() > 0 && path@[0] == PATH_SEP {
                    ROOTINO
                } else {
                    start
                },
                path@,
                0,
            ),
            r is Ok ==> r->Ok_0 < self.spec_sb().ninodes,
            r == Result::<u32, FsError>::Err(FsError::BlockOutOfRange) ==> exists|dd: int|
                0 <= dd < self.spec_sb().ninodes && #[trigger] self.dir_corrupt(dd),
    {
        let mut cur: u32 = if path.len() > 0 && path[0] == PATH_SEP {
            ROOTINO
        } else {
            start
        };
        let ghost goal = self.walk(cur, path@, 0);
        let mut i: usize = 0;
        while i < path.len()
            invariant
                self.wf(),
                cur < self.spec_sb().ninodes,
                i <= path@.len(),
                goal == self.walk(cur, path@, i as int),
                goal == self.walk(
                    if path@.len() > 0 && path@[0] == PATH_SEP {
                        ROOTINO
                    } else {
                        start
                    },
                    path@,
                    0,
                ),
            decreases path@.len() - i,
        {
            if path[i] == PATH_SEP {
                i += 1;
            } else {
                let mut j = i;
                while j < path.len() && path[j] != PATH_SEP
                    invariant
                        i <= j <= path@.len(),
                        forall|k: int| i <= k < j ==> path@[k] != PATH_SEP,
                    decreases path@.len() - j,
                {
                    j += 1;
                }
                proof {
                    lemma_next_sep(path@, i as int);
                    assert(next_sep(path@, i as int) == j as int) by {
                        if next_sep(path@, i as int) < j {
                            assert(path@[next_sep(path@, i as int)] != PATH_SEP);
                        }
                        if next_sep(path@, i as int) > j {
                            assert(path@[j as int] != PATH_SEP);
                        }
                    }
                }
                if j - i > DIRSIZ {
                    return Err(FsError::NameTooLong);
                }
                let mut nm: Vec<u8> = Vec::new();
                let mut k = i;
                while k < j
                    invariant
                        i <= k <= j <= path@.len(),
                        nm@.len() == k - i,
                        forall|m: int| 0 <= m < k - i ==> nm@[m] == path@[i + m],
                    decreases j - k,
                {
                    nm.push(path[k]);
                    k += 1;
                }
                proof {
                    assert(nm@ =~= path@.subrange(i as int, j as int));
                }
                let d = self.read_inode(cur);
                if d.typ != T_DIR {
                    return Err(FsError::NotADirectory);
                }
                if d.size as u64 > (MAXFILE * BSIZE) as u64 {
                    proof {
                        assert(self.dir_corrupt(cur as int));
                    }
                    return Err(FsError::BlockOutOfRange);
                }
                match self.dirlookup(cur, &nm) {
                    Ok((inum, off)) => {
                        proof {
                            let e = off as int / (crate::DIRENT_SIZE as int);
                            self.lemma_lookup_spec_first(cur as int, nm@, e, 0);
                        }
                        if inum >= self.sb.ninodes {
                            proof {
                                let e = off as int / (crate::DIRENT_SIZE as int);
                                assert(self.dirent_inum(cur as int, e) == inum);
                                assert(self.dir_corrupt(cur as int));
                            }
                            return Err(FsError::BlockOutOfRange);
                        }
                        cur = inum;
                        i = j;
                    },
                    Err(FsError::NotFound) => {
                        proof {
                            self.lemma_lookup_spec_none(cur as int, nm@, 0);
                        }
                        return Err(FsError::NotFound);
                    },
                    Err(er) => {
                        proof {
                            if er == FsError::BlockOutOfRange {
                                let e2 = choose|e2: int|
                                    0 <= e2 < self.dir_nentries(cur as int)
                                        && #[trigger] self.ptr_bad(cur as int, e2 / (EPB as int));
                                crate::dir::lemma_dirent_bounds(
                                    self.inode(cur as int).size as int,
                                    e2,
                                );
                                assert(self.dir_corrupt(cur as int));
                            }
                        }
                        return Err(er);
                    },
                }
            }
        }
        Ok(cur)
    }
}

/// Length of `p` up to `j` with trailing separators removed.
pub open spec fn trimmed_len(p: Seq<u8>, j: int) -> int
    decreases j,
{
    if j <= 0 {
        0
    } else if p[j - 1] == PATH_SEP {
        trimmed_len(p, j - 1)
    } else {
        j
    }
}

/// Start of the component that ends at `j`: the position after the
/// nearest separator before `j`.
pub open spec fn comp_start(p: Seq<u8>, j: int) -> int
    decreases j,
{
    if j <= 0 {
        0
    } else if p[j - 1] == PATH_SEP {
        j
    } else {
        comp_start(p, j - 1)
    }
}

impl FileSystem {
    /// Resolve `path` up to its final component: the inode of the
    /// directory that must hold it, and the component's name, for callers
    /// that create or rename. Trailing separators are ignored; a path with
    /// no component at all has no parent to give.
    pub fn resolve_parent(&self, start: u32, path: &Vec<u8>) -> (r: Result<(u32, Vec<u8>), FsError>)
        requires
            self.wf(),
            start < self.spec_sb().ninodes,
            ROOTINO < self.spec_sb().ninodes,
        ensures
            ({
                let tl = trimmed_len(path@, path@.len() as int);
                let li = comp_start(path@, tl);
                let prefix = path@.subrange(0, li);
                let walked = self.walk(
                    if prefix.len() > 0 && prefix[0] == PATH_SEP {
                        ROOTINO
                    } else {
                        start
                    },
                    prefix,
                    0,
                );
                &&& (tl == 0 ==> r == Result::<(u32, Vec<u8>), FsError>::Err(FsError::NotFound))
                &&& (tl > 0 && tl - li > DIRSIZ ==> r == Result::<(u32, Vec<u8>), FsError>::Err(
                    FsError::NameTooLong,
                ))
                &&& (match r {
                    Err(e) => e == FsError::BlockOutOfRange ==> exists|dd: int|
                        0 <= dd < self.spec_sb().ninodes && #[trigger] self.dir_corrupt(dd),
                    Ok(_) => true,
                })
                &&& (tl > 0 && tl - li <= DIRSIZ && (match r {
                    Err(e) => e != FsError::BlockOutOfRange,
                    Ok(_) => true,
                }) ==> match r {
                    Ok((par, nm)) => walked == Result::<u32, FsError>::Ok(par) && nm@
                        == path@.subrange(li, tl) && par < self.spec_sb().ninodes,
                    Err(e) => walked == Result::<u32, FsError>::Err(e),
                })
            }),
    {
        let ghost p = path@;
        let mut tl: usize = path.len();
        while tl > 0 && path[tl - 1] == PATH_SEP
            invariant
                tl <= p.len(),
                p == path@,
                trimmed_len(p, p.len() as int) == trimmed_len(p, tl as int),
            decreases tl,
        {
            tl -= 1;
        }
        proof {
            assert(trimmed_len(p, p.len() as int) == tl as int);
        }
        if tl == 0 {
            return Err(FsError::NotFound);
        }
        let mut li: usize = tl;
        while li > 0 && path[li - 1] != PATH_SEP
            invariant
                li <= tl <= p.len(),
                p == path@,
                comp_start(p, tl as int) == comp_start(p, li as int),
            decreases li,
        {
            li -= 1;
        }
        proof {
            assert(comp_start(p, tl as int) == li as int);
        }
        if tl - li > DIRSIZ {
            return Err(FsError::NameTooLong);
        }
        let mut prefix: Vec<u8> = Vec::new();
        let mut k: usize = 0;
        while k < li
            invariant
                k <= li <= p.len(),
                p == path@,
                prefix@.len() == k,
                forall|m: int| 0 <= m < k ==> prefix@[m] == p[m],
            decreases li - k,
        {
            prefix.push(path[k]);
            k += 1;
        }
        proof {
            assert(prefix@ =~= p.subrange(0, li as int));
        }
        let mut nm: Vec<u8> = Vec::new();
        let mut k: usize = li;
        while k < tl
            invariant
                li <= k <= tl <= p.len(),
                p == path@,
                nm@.len() == k - li,
                forall|m: int| 0 <= m < k - li ==> nm@[m] == p[li + m],
            decreases tl - k,
        {
            nm.push(path[k]);
            k += 1;
        }
        proof {
            assert(nm@ =~= p.subrange(li as int, tl as int));
        }
        match self.resolve(start, &prefix) {
            Ok(par) => Ok((par, nm)),
            Err(e) => Err(e),
        }
    }
}

} // verus!
