//! Open files: what a file descriptor stands for.
use vstd::prelude::*;
use std::collections::HashMap;
use crate::abi::SysError;
use crate::console::{Console, ConsoleState};
use crate::fs::table::{Fs, FsState};
use crate::fs::{FsError, Inode};
use crate::kalloc::Kmem;
use crate::param::{NDEV, NFILE};
use crate::pipe::{Pipe, PipeState, Progress};
use crate::proc::{Channel, ProcData};
use crate::sleeplock::{SleepLock, SleepLockInner};
use crate::vm::{UserMem, VA};

pub mod close;
pub mod laws;
pub mod write;

verus! {

broadcast use vstd::std_specs::hash::group_hash_axioms;

/// What a file is.
#[derive(Debug, Clone, Copy, PartialEq, Eq, Structural)]
pub enum FileType {
    Unused,
    Pipe { pipe: u64 },
    Inode { inode: Inode },
    Device { inode: Inode, major: u16 },
}

/// File metadata
#[derive(Debug, Clone, Copy, PartialEq, Eq, Structural)]
pub struct FileMeta {
    pub ref_count: u64,
}

/// Per-file mutable state protected by per-file sleeplock
#[derive(Debug, Clone, Copy, PartialEq, Eq, Structural)]
pub struct FileInner {
    pub readable: bool,
    pub writeable: bool,
    pub typ: FileType,
    pub offset: u32,
}

impl FileInner {
    /// A file that is not in use.
    pub open spec fn unused() -> FileInner {
        FileInner { readable: false, writeable: false, typ: FileType::Unused, offset: 0 }
    }
}

/// Global file table
pub struct FileTable {
    /// Reference counts
    pub meta: Vec<FileMeta>,
    /// Per-file locks
    pub inner: Vec<SleepLock<FileInner>>,
}

/// The file table, as its users see it.
#[verifier::ext_equal]
pub struct TableState {
    /// How many descriptors refer to each file
    pub refs: Seq<u64>,
    pub inner: Seq<FileInner>,
    /// The process that works on each file, if one sleeps while it does
    pub holder: Seq<Option<u64>>,
}

impl View for FileTable {
    type V = TableState;

    open spec fn view(&self) -> TableState {
        TableState {
            refs: self.meta@.map_values(|m: FileMeta| m.ref_count),
            inner: self.inner@.map_values(|l: SleepLock<FileInner>| l.data),
            holder: self.inner@.map_values(
                |l: SleepLock<FileInner>|
                    if l.inner.locked {
                        l.inner.pid
                    } else {
                        None
                    },
            ),
        }
    }
}

impl TableState {
    /// The first file from `i` on that nothing refers to.
    pub open spec fn first_free(self, i: int) -> int
        decreases NFILE - i,
    {
        if i >= NFILE || self.refs[i] == 0 {
            i
        } else {
            self.first_free(i + 1)
        }
    }

    /// Allocating a file.
    pub open spec fn allocated(self) -> (TableState, Result<File, FsError>) {
        let i = self.first_free(0);
        if i >= NFILE {
            (self, Err(FsError::OutOfFile))
        } else {
            (TableState { refs: self.refs.update(i, 1), ..self }, Ok(File { id: i as usize }))
        }
    }

    /// Another reference to file `i`; `None` where there is none yet or the count overflows.
    pub open spec fn dup(self, i: int) -> Option<TableState> {
        if 0 <= i < NFILE && 1 <= self.refs[i] < u64::MAX {
            Some(TableState { refs: self.refs.update(i, (self.refs[i] + 1) as u64), ..self })
        } else {
            None
        }
    }

    /// One reference less to file `i`, which is forgotten if it was the last one. `None` where
    /// there is none, or a process works on the file.
    pub open spec fn drop_ref(self, i: int) -> Option<TableState> {
        if !(0 <= i < NFILE) || self.refs[i] == 0 {
            None
        } else if self.refs[i] > 1 {
            Some(TableState { refs: self.refs.update(i, (self.refs[i] - 1) as u64), ..self })
        } else if self.holder[i] is Some {
            None
        } else {
            Some(
                TableState {
                    refs: self.refs.update(i, 0),
                    inner: self.inner.update(i, FileInner { typ: FileType::Unused, ..self.inner[i] }),
                    ..self
                },
            )
        }
    }

    /// The table has all its entries.
    pub open spec fn full(self) -> bool {
        self.refs.len() == NFILE && self.inner.len() == NFILE && self.holder.len() == NFILE
    }

    /// Files that nothing refers to are forgotten.
    pub open spec fn tidy(self) -> bool {
        forall|i: int|
            0 <= i < NFILE && #[trigger] self.refs[i] == 0 ==> self.inner[i].typ == FileType::Unused
                && self.holder[i] is None
    }

    /// Process `pid` can work on file `i`.
    pub open spec fn free_for(self, i: int, pid: u64) -> bool {
        self.holder[i] is None || self.holder[i] == Some(pid)
    }

    /// File `i` becomes `f`, and stays with `pid` if the call goes on later.
    pub open spec fn after(self, i: int, f: FileInner, pid: u64, progress: Progress) -> TableState {
        TableState {
            inner: self.inner.update(i, f),
            holder: self.holder.update(
                i,
                if progress is Sleep {
                    Some(pid)
                } else {
                    None
                },
            ),
            ..self
        }
    }
}

impl FileTable {
    /// The table has all its entries, and knows who holds a lock.
    pub open spec fn wf(self) -> bool {
        &&& self.meta@.len() == NFILE
        &&& self.inner@.len() == NFILE
        &&& forall|i: int|
            0 <= i < NFILE ==> ((#[trigger] self.inner@[i]).inner.locked
                ==> self.inner@[i].inner.pid is Some)
    }

    pub fn new() -> (r: Self)
        ensures
            r.wf(),
            r@ == (TableState {
                refs: Seq::new(NFILE as nat, |i: int| 0u64),
                inner: Seq::new(NFILE as nat, |i: int| FileInner::unused()),
                holder: Seq::new(NFILE as nat, |i: int| None::<u64>),
            }),
    {
        let mut meta: Vec<FileMeta> = Vec::new();
        let mut inner: Vec<SleepLock<FileInner>> = Vec::new();
        let mut i: usize = 0;
        while i < NFILE
            invariant
                i <= NFILE,
                meta@.len() == i,
                inner@.len() == i,
                forall|j: int| 0 <= j < i ==> (#[trigger] meta@[j]).ref_count == 0,
                forall|j: int|
                    0 <= j < i ==> (#[trigger] inner@[j]).data == FileInner::unused()
                        && !inner@[j].inner.locked,
            decreases NFILE - i,
        {
            meta.push(FileMeta { ref_count: 0 });
            inner.push(
                SleepLock::new(
                    FileInner {
                        readable: false,
                        writeable: false,
                        typ: FileType::Unused,
                        offset: 0,
                    },
                    "file",
                ),
            );
            i += 1;
        }
        let r = FileTable { meta, inner };
        proof {
            assert(r@.refs =~= Seq::new(NFILE as nat, |i: int| 0u64));
            assert(r@.inner =~= Seq::new(NFILE as nat, |i: int| FileInner::unused()));
            assert(r@.holder =~= Seq::new(NFILE as nat, |i: int| None::<u64>));
        }
        r
    }

    /// What file `i` is, if process `pid` can work on it.
    pub fn enter(&self, i: usize, pid: u64) -> (r: Option<FileInner>)
        requires
            self.wf(),
            i < NFILE,
        ensures
            r == (if self@.free_for(i as int, pid) {
                Some(self@.inner[i as int])
            } else {
                None
            }),
    {
        if !self.inner[i].inner.locked {
            return Some(self.inner[i].data);
        }
        match self.inner[i].inner.pid {
            Some(p) => if p == pid {
                Some(self.inner[i].data)
            } else {
                None
            },
            None => None,
        }
    }

    /// File `i` becomes `f`, and stays with `pid` if the call goes on later.
    pub fn leave(&mut self, i: usize, f: FileInner, pid: u64, progress: Progress)
        requires
            old(self).wf(),
            i < NFILE,
        ensures
            final(self).wf(),
            final(self)@ == old(self)@.after(i as int, f, pid, progress),
    {
        self.inner[i].data = f;
        match progress {
            Progress::Sleep(_, _) => {
                self.inner[i].inner = SleepLockInner { locked: true, pid: Some(pid) };
            },
            Progress::Done(_) => {
                self.inner[i].inner = SleepLockInner { locked: false, pid: None };
            },
        }
        proof {
            let want = old(self)@.after(i as int, f, pid, progress);
            assert(self@.refs =~= want.refs);
            assert(self@.inner =~= want.inner);
            assert(self@.holder =~= want.holder);
        }
    }

    /// Makes file `i`, which nobody works on, what `f` says.
    pub fn set(&mut self, i: usize, f: FileInner)
        requires
            old(self).wf(),
            i < NFILE,
        ensures
            final(self).wf(),
            final(self)@ == (TableState {
                inner: old(self)@.inner.update(i as int, f),
                ..old(self)@
            }),
    {
        self.inner[i].data = f;
        assert(self@.refs =~= old(self)@.refs);
        assert(self@.inner =~= old(self)@.inner.update(i as int, f));
        assert(self@.holder =~= old(self)@.holder);
    }
}

/// File handle, just an index into the `FileTable`
#[derive(Debug, Clone, Copy, PartialEq, Eq, Structural)]
pub struct File {
    pub id: usize,
}

/// Everything that file descriptors can stand for.
pub struct Files {
    pub table: FileTable,
    /// The pipes, by the page that each is in
    pub pipes: HashMap<u64, Pipe>,
    pub console: Console,
    pub fs: Fs,
}

/// Everything that file descriptors can stand for, as its users see it.
#[verifier::ext_equal]
pub struct FilesState {
    pub table: TableState,
    pub pipes: Map<u64, PipeState>,
    pub console: ConsoleState,
    pub fs: FsState,
}

impl View for Files {
    type V = FilesState;

    open spec fn view(&self) -> FilesState {
        FilesState {
            table: self.table@,
            pipes: self.pipes@.map_values(|p: Pipe| p@),
            console: self.console@,
            fs: self.fs@,
        }
    }
}

impl Files {
    /// All parts are in order.
    pub open spec fn wf(self) -> bool {
        &&& self.table.wf()
        &&& self.console.wf()
        &&& self.fs.wf()
        &&& forall|p: u64| #[trigger]
            self.pipes@.contains_key(p) ==> self.pipes@[p].wf() && self.pipes@[p].page() == p
    }

    /// Takes a pipe out of the map.
    pub(crate) fn take_pipe(&mut self, id: u64) -> (r: Pipe)
        requires
            old(self).wf(),
            old(self).pipes@.contains_key(id),
        ensures
            r == old(self).pipes@[id],
            final(self).wf(),
            final(self).pipes@ == old(self).pipes@.remove(id),
            final(self).table == old(self).table,
            final(self).console == old(self).console,
            final(self).fs == old(self).fs,
    {
        self.pipes.remove(&id).unwrap()
    }

    /// Puts a pipe into the map.
    pub(crate) fn put_pipe(&mut self, id: u64, pipe: Pipe)
        requires
            old(self).wf(),
            pipe.wf(),
            pipe.page() == id,
        ensures
            final(self).wf(),
            final(self)@ == (FilesState { pipes: old(self)@.pipes.insert(id, pipe@), ..old(self)@ }),
            final(self).table == old(self).table,
            final(self).console == old(self).console,
            final(self).fs == old(self).fs,
            final(self).pipes@ == old(self).pipes@.insert(id, pipe),
    {
        self.pipes.insert(id, pipe);
        assert(self@.pipes =~= old(self)@.pipes.insert(id, pipe@));
    }
}

impl FilesState {
    /// Reading from a pipe.
    pub open spec fn read_pipe(
        self,
        m: UserMem,
        size: int,
        pid: u64,
        killed: bool,
        id: int,
        pipe: u64,
        addr: int,
        n: u64,
    ) -> Option<(FilesState, UserMem, Progress, Option<Channel>)> {
        if !self.pipes.contains_key(pipe) {
            None
        } else {
            match self.pipes[pipe].read(m, size, addr, n as int, killed, pipe) {
                None => None,
                Some((p, m, r, wake)) => Some(
                    (
                        FilesState {
                            table: self.table.after(id, self.table.inner[id], pid, r),
                            pipes: self.pipes.insert(pipe, p),
                            ..self
                        },
                        m,
                        r,
                        if wake {
                            Some(Channel::PipeWrite(pipe))
                        } else {
                            None
                        },
                    ),
                ),
            }
        }
    }

    /// Reading from a file on disk, at its offset, which moves on.
    pub open spec fn read_file(
        self,
        m: UserMem,
        size: int,
        pid: u64,
        id: int,
        inode: Inode,
        addr: int,
        n: u64,
    ) -> Option<(FilesState, UserMem, Progress, Option<Channel>)> {
        let f = self.table.inner[id];
        match self.fs.lock(inode) {
            None => None,
            Some((s, d)) => match s.store.read_user(
                s.sb,
                inode.dev,
                d,
                f.offset,
                n as u32,
                m,
                size,
                addr,
            ) {
                None => None,
                Some((st, d, m, r)) => {
                    let (f, p) = match r {
                        Ok(k) => (
                            FileInner { offset: (f.offset + k) as u32, ..f },
                            Progress::Done(Ok(k as u64)),
                        ),
                        Err(_) => (f, Progress::Done(Err(SysError::IoError))),
                    };
                    Some(
                        (
                            FilesState {
                                table: self.table.after(id, f, pid, p),
                                fs: FsState { store: st, ..s }.unlock(inode, d),
                                ..self
                            },
                            m,
                            p,
                            None,
                        ),
                    )
                },
            },
        }
    }

    /// Reading from a device.
    pub open spec fn read_device(
        self,
        m: UserMem,
        size: int,
        pid: u64,
        killed: bool,
        id: int,
        major: u16,
        addr: int,
        n: u64,
        done: u64,
    ) -> Option<(FilesState, UserMem, Progress, Option<Channel>)> {
        let f = self.table.inner[id];
        if major >= NDEV {
            None
        } else if major != CONSOLE {
            let p = Progress::Done(Err(SysError::NoEntry));
            Some((FilesState { table: self.table.after(id, f, pid, p), ..self }, m, p, None))
        } else if addr + done > u64::MAX {
            None
        } else {
            match self.console.read(m, size, addr, n as int, done as int, killed) {
                None => None,
                Some((c, m, p)) => Some(
                    (
                        FilesState { table: self.table.after(id, f, pid, p), console: c, ..self },
                        m,
                        p,
                        None,
                    ),
                ),
            }
        }
    }

    /// Reading `n` bytes from file `id` to `addr`, of which `done` were read before process `pid`
    /// slept. Says also who is to be woken up. `None` where the file is not open or something that
    /// is needed is not there.
    pub open spec fn read(
        self,
        m: UserMem,
        size: int,
        pid: u64,
        killed: bool,
        id: int,
        addr: int,
        n: u64,
        done: u64,
    ) -> Option<(FilesState, UserMem, Progress, Option<Channel>)> {
        let f = self.table.inner[id];
        if !self.table.free_for(id, pid) {
            Some((self, m, Progress::Sleep(done, Channel::Lock(id as usize)), None))
        } else if !f.readable {
            let p = Progress::Done(Err(SysError::BadDescriptor));
            Some((FilesState { table: self.table.after(id, f, pid, p), ..self }, m, p, None))
        } else {
            match f.typ {
                FileType::Unused => None,
                FileType::Pipe { pipe } => self.read_pipe(m, size, pid, killed, id, pipe, addr, n),
                FileType::Inode { inode } => self.read_file(m, size, pid, id, inode, addr, n),
                FileType::Device { inode, major } => self.read_device(
                    m,
                    size,
                    pid,
                    killed,
                    id,
                    major,
                    addr,
                    n,
                    done,
                ),
            }
        }
    }
}

/// File open flags
pub struct OpenFlag;

impl OpenFlag {
    pub const READ_ONLY: u64 = 0x000;

    pub const WRITE_ONLY: u64 = 0x001;

    pub const READ_WRITE: u64 = 0x002;

    pub const CREATE: u64 = 0x200;

    pub const TRUNCATE: u64 = 0x400;
}

/// Device-specific ioctl commands
pub struct Ioctl;

impl Ioctl {
    pub const CONSOLE_SET_RAW: u64 = 1;

    pub const CONSOLE_SET_FG_PID: u64 = 2;
}

/// Console device major number
pub const CONSOLE: u16 = 1;

impl File {
    /// Allocates a file structure.
    pub fn allocate(table: &mut FileTable) -> (r: Result<Self, FsError>)
        requires
            old(table).wf(),
        ensures
            final(table).wf(),
            (final(table)@, r) == old(table)@.allocated(),
            r matches Ok(f) ==> f.id < NFILE,
    {
        let mut i: usize = 0;
        while i < NFILE
            invariant
                i <= NFILE,
                table.wf(),
                *table == *old(table),
                table@.first_free(0) == table@.first_free(i as int),
            decreases NFILE - i,
        {
            if table.meta[i].ref_count == 0 {
                table.meta[i].ref_count = 1;
                proof {
                    let want = old(table)@.allocated().0;
                    assert(table@.refs =~= want.refs);
                    assert(table@.inner =~= want.inner);
                    assert(table@.holder =~= want.holder);
                }
                return Ok(File { id: i });
            }
            i += 1;
        }
        Err(FsError::OutOfFile)
    }

    /// Increments the reference count for the file.
    pub fn dup(&self, table: &mut FileTable) -> (r: Self)
        requires
            old(table).wf(),
            old(table)@.dup(self.id as int) is Some,
        ensures
            final(table).wf(),
            Some(final(table)@) == old(table)@.dup(self.id as int),
            r == *self,
    {
        table.meta[self.id].ref_count = table.meta[self.id].ref_count + 1;
        proof {
            let want = old(table)@.dup(self.id as int)->0;
            assert(table@.refs =~= want.refs);
            assert(table@.inner =~= want.inner);
            assert(table@.holder =~= want.holder);
        }
        *self
    }

    /// Reads from file: `n` bytes to `addr`, of which `done` were read before the process slept.
    /// Returns also who is to be woken up.
    pub fn read(
        &self,
        files: &mut Files,
        data: &mut ProcData,
        kmem: &mut Kmem,
        pid: u64,
        killed: bool,
        addr: VA,
        n: u64,
        done: u64,
    ) -> (r: (Progress, Option<Channel>))
        requires
            self.id < NFILE,
            old(files).wf(),
            old(kmem).wf(),
            old(data).ready(old(kmem)@),
            old(files)@.read(
                old(data).mem(old(kmem)@),
                old(data).size as int,
                pid,
                killed,
                self.id as int,
                addr.0 as int,
                n,
                done,
            ) is Some,
        ensures
            final(files).wf(),
            final(kmem).wf(),
            old(data).touched(old(kmem)@, *final(data), final(kmem)@),
            Some((final(files)@, final(data).mem(final(kmem)@), r.0, r.1)) == old(files)@.read(
                old(data).mem(old(kmem)@),
                old(data).size as int,
                pid,
                killed,
                self.id as int,
                addr.0 as int,
                n,
                done,
            ),
    {
        proof {
            kmem.lemma_wf();
            data.lemma_touched_refl(kmem@);
        }
        let f = match files.table.enter(self.id, pid) {
            None => {
                return (Progress::Sleep(done, Channel::Lock(self.id)), None);
            },
            Some(f) => f,
        };
        if !f.readable {
            let p = Progress::Done(Err(SysError::BadDescriptor));
            files.table.leave(self.id, f, pid, p);
            assert(files@.pipes =~= old(files)@.pipes);
            return (p, None);
        }
        match f.typ {
            FileType::Unused => (Progress::Done(Err(SysError::BadDescriptor)), None),
            FileType::Pipe { pipe } => {
                let mut p = files.take_pipe(pipe);
                let (r, wake) = p.read(data, kmem, addr, n, killed);
                files.put_pipe(pipe, p);
                files.table.leave(self.id, f, pid, r);
                assert(files@.pipes =~= old(files)@.pipes.insert(pipe, p@));
                (
                    r,
                    if wake {
                        Some(Channel::PipeWrite(pipe))
                    } else {
                        None
                    },
                )
            },
            FileType::Inode { inode } => {
                let mut guard = inode.lock(&mut files.fs);
                let sb = files.fs.superblock();
                let ghost fs1 = files.fs@;
                let read = inode.read_user(
                    &mut files.fs.store,
                    &sb,
                    &mut guard,
                    f.offset,
                    data,
                    kmem,
                    addr,
                    n as u32,
                );
                assert(files.fs@ =~= FsState { store: files.fs.store@, ..fs1 });
                inode.unlock(&mut files.fs, guard);
                let (f, p) = match read {
                    Ok(k) => (
                        FileInner { offset: f.offset + k, ..f },
                        Progress::Done(Ok(k as u64)),
                    ),
                    Err(_) => (f, Progress::Done(Err(SysError::IoError))),
                };
                files.table.leave(self.id, f, pid, p);
                assert(files@.pipes =~= old(files)@.pipes);
                (p, None)
            },
            FileType::Device { inode, major } => {
                if major != CONSOLE {
                    let p = Progress::Done(Err(SysError::NoEntry));
                    files.table.leave(self.id, f, pid, p);
                    assert(files@.pipes =~= old(files)@.pipes);
                    return (p, None);
                }
                let p = files.console.read(data, kmem, addr, n, done, killed);
                files.table.leave(self.id, f, pid, p);
                assert(files@.pipes =~= old(files)@.pipes);
                (p, None)
            },
        }
    }
}

} // verus!
