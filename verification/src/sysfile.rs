//! System calls on files.
use vstd::prelude::*;
use crate::abi::SysError;
use crate::file::{File, FileInner, FileType, Files, FilesState, OpenFlag, TableState};
use crate::fs::inode::{InodeData, InodeInner, InodeType};
use crate::fs::path::Path;
use crate::fs::table::{Fs, FsState};
use crate::fs::Inode;
use crate::param::{NDEV, NINODE, NOFILE};
use crate::sleeplock::SleepLockGuard;

pub mod calls;
pub mod laws;
pub mod pipes;
pub mod run;

verus! {

/// The first free descriptor from `i` on.
pub open spec fn first_fd(open: Seq<Option<File>>, i: int) -> int
    decreases open.len() - i,
{
    if i >= open.len() || open[i] is None {
        i
    } else {
        first_fd(open, i + 1)
    }
}

/// Allocating a descriptor for `file`: the lowest one that is free.
pub open spec fn fd_given(open: Seq<Option<File>>, file: File) -> (
    Seq<Option<File>>,
    Result<u64, SysError>,
) {
    let fd = first_fd(open, 0);
    if fd >= open.len() {
        (open, Err(SysError::TooManyFiles))
    } else {
        (open.update(fd, Some(file)), Ok(fd as u64))
    }
}

/// Allocates a file descriptor for the given file.
/// Takes over file reference from caller on success.
pub fn fd_alloc(open: &mut Vec<Option<File>>, file: File) -> (r: Result<u64, SysError>)
    requires
        old(open)@.len() == NOFILE,
    ensures
        final(open)@.len() == NOFILE,
        (final(open)@, r) == fd_given(old(open)@, file),
{
    let mut fd: usize = 0;
    while fd < open.len()
        invariant
            fd <= open@.len(),
            open@.len() == NOFILE,
            *open == *old(open),
            first_fd(open@, 0) == first_fd(open@, fd as int),
        decreases open@.len() - fd,
    {
        if open[fd].is_none() {
            open[fd] = Some(file);
            return Ok(fd as u64);
        }
        fd += 1;
    }
    Err(SysError::TooManyFiles)
}

/// A descriptor that is handed out is the lowest that was free, and no other one changes.
pub proof fn law_lowest_descriptor(open: Seq<Option<File>>, file: File)
    requires
        open.len() <= NOFILE,
    ensures
        match fd_given(open, file) {
            (new, Ok(fd)) => {
                &&& fd < open.len()
                &&& new.len() == open.len()
                &&& open[fd as int] is None
                &&& new[fd as int] == Some(file)
                &&& forall|j: int| 0 <= j < fd ==> #[trigger] open[j] is Some
                &&& forall|j: int|
                    0 <= j < open.len() && j != fd ==> #[trigger] new[j] == open[j]
            },
            (new, Err(e)) => new == open && e == SysError::TooManyFiles && forall|j: int|
                0 <= j < open.len() ==> #[trigger] open[j] is Some,
        },
{
    lemma_first_fd(open, 0);
}

proof fn lemma_first_fd(open: Seq<Option<File>>, i: int)
    requires
        0 <= i <= open.len(),
    ensures
        i <= first_fd(open, i) <= open.len(),
        first_fd(open, i) < open.len() ==> open[first_fd(open, i)] is None,
        forall|j: int| i <= j < first_fd(open, i) ==> #[trigger] open[j] is Some,
    decreases open.len() - i,
{
    if i < open.len() && open[i] is Some {
        lemma_first_fd(open, i + 1);
    }
}

impl FsState {
    /// The inode to open, locked: a new one, or the one at `path`.
    pub open spec fn open_inode(self, path: Seq<u8>, cwd: Inode, mode: u64) -> Option<
        (FsState, Result<(Inode, InodeData), SysError>),
    > {
        if mode & OpenFlag::CREATE != 0 {
            match self.create(path, cwd, InodeType::File, 0, 0) {
                None => None,
                Some((s, Err(e))) => Some((s, Err(SysError::of_fs(e)))),
                Some((s, Ok((ino, d)))) => s.open_device(ino, d),
            }
        } else {
            match self.resolve(path, cwd, false) {
                None => None,
                Some((s, Err(_))) => Some((s, Err(SysError::NoEntry))),
                Some((s, Ok((ino, _)))) => match s.lock(ino) {
                    None => None,
                    Some((s, d)) => if d.typ == InodeType::Directory && mode
                        != OpenFlag::READ_ONLY {
                        s.open_refused(ino, d, SysError::IsDirectory)
                    } else {
                        s.open_device(ino, d)
                    },
                },
            }
        }
    }

    /// Opening the inode, unless it is a device that cannot be.
    pub open spec fn open_device(self, ino: Inode, d: InodeData) -> Option<
        (FsState, Result<(Inode, InodeData), SysError>),
    > {
        if d.typ == InodeType::Device && d.major >= NDEV {
            self.open_refused(ino, d, SysError::NoEntry)
        } else {
            Some((self, Ok((ino, d))))
        }
    }

    /// Giving back the inode with an error.
    pub open spec fn open_refused(self, ino: Inode, d: InodeData, e: SysError) -> Option<
        (FsState, Result<(Inode, InodeData), SysError>),
    > {
        match self.unlock_put(ino, d) {
            None => None,
            Some(s) => Some((s, Err(e))),
        }
    }

    /// Unlocking an inode that was opened, emptied first if that is asked for.
    pub open spec fn opened(self, ino: Inode, d: InodeData, mode: u64) -> Option<FsState> {
        if ino.id >= NINODE {
            None
        } else if mode & OpenFlag::TRUNCATE != 0 && d.typ == InodeType::File {
            match self.store.trunc_inode(self.sb, ino.dev, ino.inum, d) {
                None => None,
                Some((st, d)) => Some(self.with_store(st).unlock(ino, d)),
            }
        } else {
            Some(self.unlock(ino, d))
        }
    }
}

/// What a file that was opened is, in the place of `f`.
pub open spec fn opened_file(f: FileInner, ino: Inode, d: InodeData, mode: u64) -> FileInner {
    FileInner {
        typ: if d.typ == InodeType::Device {
            FileType::Device { inode: ino, major: d.major }
        } else {
            FileType::Inode { inode: ino }
        },
        offset: if d.typ == InodeType::Device {
            f.offset
        } else {
            0
        },
        readable: mode & OpenFlag::WRITE_ONLY == 0,
        writeable: mode & OpenFlag::WRITE_ONLY != 0 || mode & OpenFlag::READ_WRITE != 0,
    }
}

impl FilesState {
    /// Making an inode an open file, with a descriptor.
    pub open spec fn open_file(self, open: Seq<Option<File>>, ino: Inode, d: InodeData, mode: u64) -> Option<
        (FilesState, Seq<Option<File>>, Result<u64, SysError>),
    > {
        match self.table.allocated() {
            (table, Err(e)) => match self.fs.unlock_put(ino, d) {
                None => None,
                Some(fs) => Some((FilesState { fs, ..self }, open, Err(SysError::of_fs(e)))),
            },
            (table, Ok(file)) => match fd_given(open, file) {
                (open, Err(e)) => match (FilesState { table, ..self }).close(file.id as int) {
                    None => None,
                    Some((s, _)) => match s.fs.unlock_put(ino, d) {
                        None => None,
                        Some(fs) => Some((FilesState { fs, ..s }, open, Err(e))),
                    },
                },
                (open, Ok(fd)) => match self.fs.opened(ino, d, mode) {
                    None => None,
                    Some(fs) => Some(
                        (
                            FilesState {
                                table: TableState {
                                    inner: table.inner.update(
                                        file.id as int,
                                        opened_file(table.inner[file.id as int], ino, d, mode),
                                    ),
                                    ..table
                                },
                                fs,
                                ..self
                            },
                            open,
                            Ok(fd),
                        ),
                    ),
                },
            },
        }
    }

    /// Opening `path`, in one operation on the log.
    pub open spec fn open(self, open: Seq<Option<File>>, path: Seq<u8>, cwd: Inode, mode: u64) -> Option<
        (FilesState, Seq<Option<File>>, Result<u64, SysError>),
    > {
        match self.fs.begin() {
            None => None,
            Some(fs) => match fs.open_inode(path, cwd, mode) {
                None => None,
                Some((fs, Err(e))) => (FilesState { fs, ..self }).finish(open, Err(e)),
                Some((fs, Ok((ino, d)))) => match (FilesState { fs, ..self }).open_file(
                    open,
                    ino,
                    d,
                    mode,
                ) {
                    None => None,
                    Some((s, open, r)) => s.finish(open, r),
                },
            },
        }
    }

    /// Ending the operation.
    pub open spec fn finish(self, open: Seq<Option<File>>, r: Result<u64, SysError>) -> Option<
        (FilesState, Seq<Option<File>>, Result<u64, SysError>),
    > {
        match self.fs.end() {
            None => None,
            Some(fs) => Some((FilesState { fs, ..self }, open, r)),
        }
    }
}

/// Finds the inode to open, or makes it.
fn open_inode(fs: &mut Fs, path: &Path, cwd: &Inode, mode: u64) -> (r: Result<
    (Inode, SleepLockGuard<InodeInner>),
    SysError,
>)
    requires
        old(fs).wf(),
        old(fs)@.open_inode(path.0@, *cwd, mode) is Some,
    ensures
        final(fs).wf(),
        final(fs)@.sb == old(fs)@.sb,
        ({
            let (s, found) = old(fs)@.open_inode(path.0@, *cwd, mode)->0;
            &&& final(fs)@ == s
            &&& match found {
                Ok((ino, d)) => r is Ok && r->Ok_0.0 == ino && r->Ok_0.1.data@ == d,
                Err(e) => r is Err && r->Err_0 == e,
            }
        }),
{
    let inode;
    let guard;
    // either create a new file or find the file from the path
    if mode & OpenFlag::CREATE != 0 {
        match Inode::create(fs, path, cwd, InodeType::File, 0, 0) {
            Ok(made) => {
                inode = made.0;
                guard = made.1;
            },
            Err(e) => {
                return Err(SysError::from(e));
            },
        }
    } else {
        match path.resolve(fs, cwd) {
            Ok(found) => {
                inode = found;
            },
            Err(_) => {
                return Err(SysError::NoEntry);
            },
        }
        guard = inode.lock(fs);
        // if it is a directory, cannot open with write mode
        if guard.data.typ == InodeType::Directory && mode != OpenFlag::READ_ONLY {
            inode.unlock_put(fs, guard);
            return Err(SysError::IsDirectory);
        }
    }
    // cannot open device out of range
    if guard.data.typ == InodeType::Device && guard.data.major >= NDEV as u16 {
        inode.unlock_put(fs, guard);
        return Err(SysError::NoEntry);
    }
    Ok((inode, guard))
}

/// Makes an inode an open file, with a descriptor.
fn open_file(
    files: &mut Files,
    open: &mut Vec<Option<File>>,
    inode: Inode,
    guard: SleepLockGuard<InodeInner>,
    mode: u64,
) -> (r: Result<u64, SysError>)
    requires
        old(files).wf(),
        old(open)@.len() == NOFILE,
        old(files)@.open_file(old(open)@, inode, guard.data@, mode) is Some,
    ensures
        final(files).wf(),
        final(open)@.len() == NOFILE,
        Some((final(files)@, final(open)@, r)) == old(files)@.open_file(
            old(open)@,
            inode,
            guard.data@,
            mode,
        ),
{
    let ghost s0 = files@;
    // allocate a file structure and a file descriptor
    let file = match File::allocate(&mut files.table) {
        Ok(file) => file,
        Err(e) => {
            inode.unlock_put(&mut files.fs, guard);
            assert(files@.pipes =~= s0.pipes);
            return Err(SysError::from(e));
        },
    };
    assert(files@.pipes =~= s0.pipes);
    let fd = match fd_alloc(open, file) {
        Ok(fd) => fd,
        Err(e) => {
            // if err here, we must also close the file
            file.close(files);
            let ghost s1 = files@;
            inode.unlock_put(&mut files.fs, guard);
            assert(files@.pipes =~= s1.pipes);
            return Err(e);
        },
    };
    let f = files.table.inner[file.id].data;
    let typ = if guard.data.typ == InodeType::Device {
        FileType::Device { inode, major: guard.data.major }
    } else {
        FileType::Inode { inode }
    };
    let offset: u32 = if guard.data.typ == InodeType::Device {
        f.offset
    } else {
        0
    };
    files.table.set(
        file.id,
        FileInner {
            typ,
            offset,
            readable: mode & OpenFlag::WRITE_ONLY == 0,
            writeable: mode & OpenFlag::WRITE_ONLY != 0 || mode & OpenFlag::READ_WRITE != 0,
        },
    );
    let mut guard = guard;
    if mode & OpenFlag::TRUNCATE != 0 && guard.data.typ == InodeType::File {
        let sb = files.fs.superblock();
        let ghost fs1 = files.fs@;
        inode.trunc(&mut files.fs.store, &sb, &mut guard);
        assert(files.fs@ =~= fs1.with_store(files.fs.store@));
    }
    inode.unlock(&mut files.fs, guard);
    assert(files@.pipes =~= s0.pipes);
    Ok(fd)
}

/// Opens `path`, in one operation on the log.
pub fn open_path(files: &mut Files, open: &mut Vec<Option<File>>, path: &Path, cwd: &Inode, mode: u64) -> (r: Result<
    u64,
    SysError,
>)
    requires
        old(files).wf(),
        old(open)@.len() == NOFILE,
        old(files)@.open(old(open)@, path.0@, *cwd, mode) is Some,
    ensures
        final(files).wf(),
        final(open)@.len() == NOFILE,
        Some((final(files)@, final(open)@, r)) == old(files)@.open(
            old(open)@,
            path.0@,
            *cwd,
            mode,
        ),
{
    let ghost s0 = files@;
    files.fs.begin_op();
    match open_inode(&mut files.fs, path, cwd, mode) {
        Ok((inode, guard)) => {
            assert(files@.pipes =~= s0.pipes);
            let r = open_file(files, open, inode, guard, mode);
            let ghost s1 = files@;
            files.fs.end_op();
            assert(files@.pipes =~= s1.pipes);
            r
        },
        Err(e) => {
            files.fs.end_op();
            assert(files@.pipes =~= s0.pipes);
            Err(e)
        },
    }
}

} // verus!
