//! Changes to the tree of directories, each in one operation on the log.
use vstd::prelude::*;
use crate::abi::SysError;
use crate::fs::dir::{padded, DirEntry, Directory};
use crate::fs::inode::{Inode, InodeData, InodeInner, InodeType};
use crate::fs::path::Path;
use crate::fs::table::{Fs, FsState};
use crate::param::NINODE;
use crate::sleeplock::SleepLockGuard;

verus! {

/// `.`
pub const DOT: u8 = 0x2e;

/// Whether a name is `.` or `..`.
pub open spec fn is_dots(name: Seq<u8>) -> bool {
    name == seq![DOT] || name == seq![DOT, DOT]
}

/// Whether a name is `.` or `..`.
fn dots(name: &[u8]) -> (r: bool)
    ensures
        r == is_dots(name@),
{
    if name.len() == 1 && name[0] == DOT {
        assert(name@ =~= seq![DOT]);
        return true;
    }
    if name.len() == 2 && name[0] == DOT && name[1] == DOT {
        assert(name@ =~= seq![DOT, DOT]);
        return true;
    }
    assert(name@ == seq![DOT] ==> name@.len() == 1 && name@[0] == DOT);
    assert(name@ == seq![DOT, DOT] ==> name@.len() == 2 && name@[0] == DOT && name@[1] == DOT);
    false
}

impl FsState {
    /// Changing the number of links to `ino`, which is locked, and unlocking it.
    pub open spec fn relink_locked(self, ino: Inode, d: InodeData, by: int) -> Option<FsState> {
        let d = InodeData { nlink: (d.nlink + by) as u16, ..d };
        match self.set_links(ino, d) {
            None => None,
            Some(s) => Some(s.unlock(ino, d)),
        }
    }

    /// Writing the inode `d` to disk.
    pub open spec fn set_links(self, ino: Inode, d: InodeData) -> Option<FsState> {
        match self.store.update_inode(self.sb, ino.dev, ino.inum, d) {
            None => None,
            Some(store) => Some(self.with_store(store)),
        }
    }

    /// Entering `ino` under the path `new`.
    pub open spec fn link_new(self, ino: Inode, new: Seq<u8>, cwd: Inode) -> Option<
        (FsState, Result<u64, SysError>),
    > {
        match self.resolve(new, cwd, true) {
            None => None,
            Some((s, Err(_))) => Some((s, Err(SysError::NoEntry))),
            Some((s, Ok((parent, name)))) => if parent.dev != ino.dev {
                Some((s, Err(SysError::CrossDeviceLink)))
            } else {
                match s.lock(parent) {
                    None => None,
                    Some((s, d)) => match s.dir_link(parent, d, name, ino.inum as u16) {
                        None => None,
                        Some((s, d, r)) => match s.unlock_put(parent, d) {
                            None => None,
                            Some(s) => Some(
                                (
                                    s,
                                    match r {
                                        Ok(()) => Ok(0),
                                        Err(e) => Err(SysError::of_fs(e)),
                                    },
                                ),
                            ),
                        },
                    },
                }
            },
        }
    }

    /// Making `new` another name of the file `old`. The count of links goes up first, and down
    /// again if the name could not be entered.
    pub open spec fn link(self, old: Seq<u8>, new: Seq<u8>, cwd: Inode) -> Option<
        (FsState, Result<u64, SysError>),
    > {
        match self.resolve(old, cwd, false) {
            None => None,
            Some((s, Err(_))) => Some((s, Err(SysError::NoEntry))),
            Some((s, Ok((ino, _)))) => match s.lock(ino) {
                None => None,
                Some((s, d)) => if d.typ == InodeType::Directory {
                    match s.unlock_put(ino, d) {
                        None => None,
                        Some(s) => Some((s, Err(SysError::NotPermitted))),
                    }
                } else if d.nlink == u16::MAX {
                    None
                } else {
                    match s.relink_locked(ino, d, 1) {
                        None => None,
                        Some(s) => match s.link_new(ino, new, cwd) {
                            None => None,
                            Some((s, r)) => s.link_end(ino, r),
                        },
                    }
                },
            },
        }
    }

    /// The end of linking: the count goes down again if there was an error.
    pub open spec fn link_end(self, ino: Inode, r: Result<u64, SysError>) -> Option<
        (FsState, Result<u64, SysError>),
    > {
        let s = if r is Err {
            match self.lock(ino) {
                None => None,
                Some((s, d)) => if d.nlink == 0 {
                    None
                } else {
                    s.relink_locked(ino, d, -1)
                },
            }
        } else {
            Some(self)
        };
        match s {
            None => None,
            Some(s) => match s.put(ino) {
                None => None,
                Some(s) => Some((s, r)),
            },
        }
    }

    /// Removing the entry at `offset` of `parent`, which is for `ino`; both are locked.
    pub open spec fn unlink_entry(
        self,
        parent: Inode,
        pd: InodeData,
        ino: Inode,
        d: InodeData,
        offset: u32,
    ) -> Option<(FsState, Result<u64, SysError>)> {
        let entry = DirEntry { inum: 0, name: padded(seq![]) };
        match self.store.write_inode(
            self.sb,
            parent.dev,
            parent.inum,
            pd,
            offset,
            entry.bytes(),
        ) {
            None => None,
            Some((st, pd, Err(_))) => match self.with_store(st).unlock_put(parent, pd) {
                None => None,
                Some(s) => Some((s, Err(SysError::IoError))),
            },
            Some((st, pd, Ok(n))) => if n != Directory::SIZE {
                None
            } else {
                self.with_store(st).unlink_counts(parent, pd, ino, d)
            },
        }
    }

    /// One link less to `ino`, and to `parent` if `ino` is a directory.
    pub open spec fn unlink_counts(self, parent: Inode, pd: InodeData, ino: Inode, d: InodeData) -> Option<
        (FsState, Result<u64, SysError>),
    > {
        let dir = d.typ == InodeType::Directory;
        let pd1 = InodeData { nlink: (pd.nlink - 1) as u16, ..pd };
        let s = if dir && pd.nlink == 0 {
            None
        } else if dir {
            self.set_links(parent, pd1)
        } else {
            Some(self)
        };
        let pd2 = if dir {
            pd1
        } else {
            pd
        };
        match s {
            None => None,
            Some(s) => match s.unlock_put(parent, pd2) {
                None => None,
                Some(s) => s.unlink_inode(ino, d),
            },
        }
    }

    /// One link less to `ino`, which is then given back.
    pub open spec fn unlink_inode(self, ino: Inode, d: InodeData) -> Option<
        (FsState, Result<u64, SysError>),
    > {
        let d1 = InodeData { nlink: (d.nlink - 1) as u16, ..d };
        if d.nlink == 0 {
            None
        } else {
            match self.set_links(ino, d1) {
                None => None,
                Some(s) => match s.unlock_put(ino, d1) {
                    None => None,
                    Some(s) => Some((s, Ok(0))),
                },
            }
        }
    }

    /// Giving back `ino` and `parent` with an error.
    pub open spec fn give_back(self, ino: Inode, d: InodeData, parent: Inode, pd: InodeData, e: SysError) -> Option<
        (FsState, Result<u64, SysError>),
    > {
        match self.unlock_put(ino, d) {
            None => None,
            Some(s) => match s.unlock_put(parent, pd) {
                None => None,
                Some(s) => Some((s, Err(e))),
            },
        }
    }

    /// Removing the name `name` from the directory `parent`, which is locked.
    pub open spec fn unlink_name(self, parent: Inode, pd: InodeData, name: Seq<u8>) -> Option<
        (FsState, Result<u64, SysError>),
    > {
        if is_dots(name) {
            self.refuse(parent, pd, SysError::InvalidArgument)
        } else {
            match self.dir_lookup(parent, pd, name) {
                None => None,
                Some((s, pd, Ok(Some((offset, ino))))) => match s.lock(ino) {
                    None => None,
                    Some((s, d)) => if d.nlink < 1 {
                        None
                    } else if d.typ == InodeType::Directory {
                        match s.store.all_free(
                            s.sb,
                            ino.dev,
                            d,
                            2 * Directory::SIZE,
                            d.size as int,
                        ) {
                            None => None,
                            Some((st, d, false)) => s.with_store(st).give_back(
                                ino,
                                d,
                                parent,
                                pd,
                                SysError::NotEmpty,
                            ),
                            Some((st, d, true)) => s.with_store(st).unlink_entry(
                                parent,
                                pd,
                                ino,
                                d,
                                offset,
                            ),
                        }
                    } else {
                        s.unlink_entry(parent, pd, ino, d, offset)
                    },
                },
                Some((s, pd, _)) => s.refuse(parent, pd, SysError::NoEntry),
            }
        }
    }

    /// Giving back `ino`, which is locked, with an error.
    pub open spec fn refuse(self, ino: Inode, d: InodeData, e: SysError) -> Option<
        (FsState, Result<u64, SysError>),
    > {
        match self.unlock_put(ino, d) {
            None => None,
            Some(s) => Some((s, Err(e))),
        }
    }

    /// Removing a name; the file goes with its last one. A directory must be empty.
    pub open spec fn unlink(self, path: Seq<u8>, cwd: Inode) -> Option<
        (FsState, Result<u64, SysError>),
    > {
        match self.resolve(path, cwd, true) {
            None => None,
            Some((s, Err(_))) => Some((s, Err(SysError::NoEntry))),
            Some((s, Ok((parent, name)))) => match s.lock(parent) {
                None => None,
                Some((s, pd)) => s.unlink_name(parent, pd, name),
            },
        }
    }

    /// Making a directory or a device.
    pub open spec fn make_node(
        self,
        path: Seq<u8>,
        cwd: Inode,
        typ: InodeType,
        major: u16,
        minor: u16,
    ) -> Option<(FsState, Result<u64, SysError>)> {
        match self.create(path, cwd, typ, major, minor) {
            None => None,
            Some((s, Err(e))) => Some((s, Err(SysError::of_fs(e)))),
            Some((s, Ok((ino, d)))) => match s.unlock_put(ino, d) {
                None => None,
                Some(s) => Some((s, Ok(0))),
            },
        }
    }

    /// Changing the current directory `cwd`.
    pub open spec fn chdir(self, path: Seq<u8>, cwd: Inode) -> Option<
        (FsState, Inode, Result<u64, SysError>),
    > {
        match self.resolve(path, cwd, false) {
            None => None,
            Some((s, Err(_))) => Some((s, cwd, Err(SysError::NoEntry))),
            Some((s, Ok((ino, _)))) => match s.lock(ino) {
                None => None,
                Some((s, d)) => if d.typ != InodeType::Directory {
                    match s.unlock_put(ino, d) {
                        None => None,
                        Some(s) => Some((s, cwd, Err(SysError::NotDirectory))),
                    }
                } else {
                    match s.unlock(ino, d).put(cwd) {
                        None => None,
                        Some(s) => Some((s, ino, Ok(0))),
                    }
                },
            },
        }
    }
}

/// Enters `ino` under the path `new`.
fn link_new(fs: &mut Fs, ino: &Inode, new: &Path, cwd: &Inode) -> (r: Result<u64, SysError>)
    requires
        old(fs).wf(),
        old(fs)@.link_new(*ino, new.0@, *cwd) is Some,
    ensures
        final(fs).wf(),
        final(fs)@.sb == old(fs)@.sb,
        Some((final(fs)@, r)) == old(fs)@.link_new(*ino, new.0@, *cwd),
{
    // get the inode of the new's parent
    let (parent, name) = match new.resolve_parent(fs, cwd) {
        Ok(found) => found,
        Err(_) => {
            return Err(SysError::NoEntry);
        },
    };
    // make sure they are in the same device
    if parent.dev != ino.dev {
        return Err(SysError::CrossDeviceLink);
    }
    let mut inner = parent.lock(fs);
    // add the inode to the new's parent
    let linked = Directory::link(&parent, fs, &mut inner, name, ino.inum as u16);
    parent.unlock_put(fs, inner);
    match linked {
        Ok(()) => Ok(0),
        Err(e) => Err(SysError::from(e)),
    }
}

/// Makes `new` another name of the file `old`, inside of an operation.
pub fn link(fs: &mut Fs, old_path: &Path, new: &Path, cwd: &Inode) -> (r: Result<u64, SysError>)
    requires
        old(fs).wf(),
        old(fs)@.link(old_path.0@, new.0@, *cwd) is Some,
    ensures
        final(fs).wf(),
        final(fs)@.sb == old(fs)@.sb,
        Some((final(fs)@, r)) == old(fs)@.link(old_path.0@, new.0@, *cwd),
{
    // get the inode of the old
    let inode = match old_path.resolve(fs, cwd) {
        Ok(inode) => inode,
        Err(_) => {
            return Err(SysError::NoEntry);
        },
    };
    let mut inner = inode.lock(fs);
    // make sure it is not a directory
    if inner.data.typ == InodeType::Directory {
        inode.unlock_put(fs, inner);
        return Err(SysError::NotPermitted);
    }
    // increment number of links pointing to the inode
    let sb = fs.superblock();
    let ghost s1 = fs@;
    inner.data.nlink = inner.data.nlink + 1;
    inode.update(&mut fs.store, &sb, &inner);
    assert(fs@ =~= s1.with_store(fs.store@));
    inode.unlock(fs, inner);
    let result = link_new(fs, &inode, new, cwd);
    // after incrementing nlink, failures take it back
    if result.is_err() {
        let mut inner = inode.lock(fs);
        let ghost s2 = fs@;
        inner.data.nlink = inner.data.nlink - 1;
        inode.update(&mut fs.store, &sb, &inner);
        assert(fs@ =~= s2.with_store(fs.store@));
        inode.unlock(fs, inner);
    }
    inode.put(fs);
    result
}

/// Removes the entry at `offset` of `parent`, which is for `inode`; both are locked.
fn unlink_entry(
    fs: &mut Fs,
    parent: Inode,
    parent_guard: SleepLockGuard<InodeInner>,
    inode: Inode,
    guard: SleepLockGuard<InodeInner>,
    offset: u32,
) -> (r: Result<u64, SysError>)
    requires
        old(fs).wf(),
        parent.id < NINODE,
        inode.id < NINODE,
        old(fs)@.unlink_entry(parent, parent_guard.data@, inode, guard.data@, offset) is Some,
    ensures
        final(fs).wf(),
        final(fs)@.sb == old(fs)@.sb,
        Some((final(fs)@, r)) == old(fs)@.unlink_entry(
            parent,
            parent_guard.data@,
            inode,
            guard.data@,
            offset,
        ),
{
    let sb = fs.superblock();
    let ghost s0 = fs@;
    let mut parent_guard = parent_guard;
    let mut guard = guard;
    // replace the directory entry with an empty one
    let bytes = Directory::new_empty().as_bytes();
    let written = parent.write(&mut fs.store, &sb, &mut parent_guard, offset, &bytes);
    assert(fs@ =~= s0.with_store(fs.store@));
    if written.is_err() {
        parent.unlock_put(fs, parent_guard);
        return Err(SysError::IoError);
    }
    // if it is a directory, decrement parent's link count
    if guard.data.typ == InodeType::Directory {
        let ghost s1 = fs@;
        parent_guard.data.nlink = parent_guard.data.nlink - 1;
        parent.update(&mut fs.store, &sb, &parent_guard);
        assert(fs@ =~= s1.with_store(fs.store@));
    }
    parent.unlock_put(fs, parent_guard);
    // decrement the inode's link count
    let ghost s2 = fs@;
    guard.data.nlink = guard.data.nlink - 1;
    inode.update(&mut fs.store, &sb, &guard);
    assert(fs@ =~= s2.with_store(fs.store@));
    inode.unlock_put(fs, guard);
    Ok(0)
}

/// Removes a name, inside of an operation; the file goes with its last one. A directory must be
/// empty.
pub fn unlink(fs: &mut Fs, path: &Path, cwd: &Inode) -> (r: Result<u64, SysError>)
    requires
        old(fs).wf(),
        old(fs)@.unlink(path.0@, *cwd) is Some,
    ensures
        final(fs).wf(),
        final(fs)@.sb == old(fs)@.sb,
        Some((final(fs)@, r)) == old(fs)@.unlink(path.0@, *cwd),
{
    // get the parent inode and name
    let (parent, name) = match path.resolve_parent(fs, cwd) {
        Ok(found) => found,
        Err(_) => {
            return Err(SysError::NoEntry);
        },
    };
    let mut parent_guard = parent.lock(fs);
    // cannot unlink `.` or `..`
    if dots(name) {
        parent.unlock_put(fs, parent_guard);
        return Err(SysError::InvalidArgument);
    }
    // find the inode in the parent's directory entry
    let (offset, inode) = match Directory::lookup(&parent, fs, &mut parent_guard, name) {
        Ok(Some(found)) => found,
        _ => {
            parent.unlock_put(fs, parent_guard);
            return Err(SysError::NoEntry);
        },
    };
    let mut guard = inode.lock(fs);
    // if the inode is a directory and it is not empty, cannot unlink
    if guard.data.typ == InodeType::Directory {
        let sb = fs.superblock();
        let ghost s1 = fs@;
        let empty = Directory::is_empty(&inode, &mut fs.store, &sb, &mut guard);
        assert(fs@ =~= s1.with_store(fs.store@));
        if !empty {
            inode.unlock_put(fs, guard);
            parent.unlock_put(fs, parent_guard);
            return Err(SysError::NotEmpty);
        }
    }
    unlink_entry(fs, parent, parent_guard, inode, guard, offset)
}

/// Makes a directory or a device, inside of an operation.
pub fn make_node(fs: &mut Fs, path: &Path, cwd: &Inode, typ: InodeType, major: u16, minor: u16) -> (r: Result<
    u64,
    SysError,
>)
    requires
        old(fs).wf(),
        old(fs)@.make_node(path.0@, *cwd, typ, major, minor) is Some,
    ensures
        final(fs).wf(),
        final(fs)@.sb == old(fs)@.sb,
        Some((final(fs)@, r)) == old(fs)@.make_node(path.0@, *cwd, typ, major, minor),
{
    match Inode::create(fs, path, cwd, typ, major, minor) {
        Ok((inode, guard)) => {
            inode.unlock_put(fs, guard);
            Ok(0)
        },
        Err(e) => Err(SysError::from(e)),
    }
}

/// Changes the current directory, inside of an operation.
pub fn chdir(fs: &mut Fs, path: &Path, cwd: &mut Inode) -> (r: Result<u64, SysError>)
    requires
        old(fs).wf(),
        old(fs)@.chdir(path.0@, *old(cwd)) is Some,
    ensures
        final(fs).wf(),
        final(fs)@.sb == old(fs)@.sb,
        Some((final(fs)@, *final(cwd), r)) == old(fs)@.chdir(path.0@, *old(cwd)),
{
    let inode = match path.resolve(fs, cwd) {
        Ok(inode) => inode,
        Err(_) => {
            return Err(SysError::NoEntry);
        },
    };
    let guard = inode.lock(fs);
    if guard.data.typ != InodeType::Directory {
        inode.unlock_put(fs, guard);
        return Err(SysError::NotDirectory);
    }
    inode.unlock(fs, guard);
    let old_cwd = *cwd;
    *cwd = inode;
    old_cwd.put(fs);
    Ok(0)
}

} // verus!
