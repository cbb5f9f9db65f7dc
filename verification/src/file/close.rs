//! Closing files, and what can be asked of them.
use vstd::prelude::*;
use crate::abi::SysError;
use crate::file::{File, FileInner, FileType, Files, FilesState, TableState, CONSOLE};
use crate::fs::table::FsState;
use crate::fs::{FsError, Inode, Stat};
use crate::kalloc::{zero_page, Content, Kmem};
use crate::param::NFILE;
use crate::pipe::{Pipe, PipeState, Progress};
use crate::proc::{copy_to_user, Channel, ProcData};
use crate::vm::{UserMem, VA};

verus! {

/// What is left to do when a file was closed.
#[derive(Debug, Clone, Copy, PartialEq, Eq, Structural)]
pub struct Closed {
    /// Who is to be woken up
    pub wake: Option<Channel>,
    /// The page of a pipe that is gone
    pub freed: Option<u64>,
}

impl FsState {
    /// Dropping a reference to `inode`, in an operation of its own.
    pub open spec fn put_op(self, inode: Inode) -> Option<FsState> {
        match self.begin() {
            None => None,
            Some(s) => match s.put(inode) {
                None => None,
                Some(s) => s.end(),
            },
        }
    }
}

impl FilesState {
    /// Closing an end of a pipe, which is gone when both are closed.
    pub open spec fn close_pipe(self, pipe: u64, writeable: bool) -> Option<(FilesState, Closed)> {
        let p = self.pipes[pipe].close(writeable);
        let gone = !p.read_open && !p.write_open;
        if !self.pipes.contains_key(pipe) {
            None
        } else {
            Some(
                (
                    FilesState {
                        pipes: if gone {
                            self.pipes.remove(pipe)
                        } else {
                            self.pipes.insert(pipe, p)
                        },
                        ..self
                    },
                    Closed {
                        wake: Some(
                            if writeable {
                                Channel::PipeRead(pipe)
                            } else {
                                Channel::PipeWrite(pipe)
                            },
                        ),
                        freed: if gone {
                            Some(pipe)
                        } else {
                            None
                        },
                    },
                ),
            )
        }
    }

    /// Closing file `id`: it has one reference less, and is closed if that was the last one.
    /// `None` where it is not open or something that is needed is not there.
    pub open spec fn close(self, id: int) -> Option<(FilesState, Closed)> {
        let f = self.table.inner[id];
        match self.table.drop_ref(id) {
            None => None,
            Some(table) => {
                let s = FilesState { table, ..self };
                if table.refs[id] > 0 {
                    Some((s, Closed { wake: None, freed: None }))
                } else {
                    match f.typ {
                        FileType::Unused => Some((s, Closed { wake: None, freed: None })),
                        FileType::Pipe { pipe } => s.close_pipe(pipe, f.writeable),
                        FileType::Inode { inode } => s.close_inode(inode),
                        FileType::Device { inode, major } => s.close_inode(inode),
                    }
                }
            },
        }
    }

    /// Closing a file on disk.
    pub open spec fn close_inode(self, inode: Inode) -> Option<(FilesState, Closed)> {
        match self.fs.put_op(inode) {
            None => None,
            Some(fs) => Some((FilesState { fs, ..self }, Closed { wake: None, freed: None })),
        }
    }

    /// Getting metadata about file `id` to `addr`.
    pub open spec fn stat(self, m: UserMem, size: int, pid: u64, id: int, addr: int) -> Option<
        (FilesState, UserMem, Progress),
    > {
        let f = self.table.inner[id];
        if !self.table.free_for(id, pid) {
            Some((self, m, Progress::Sleep(0, Channel::Lock(id as usize))))
        } else {
            match f.typ {
                FileType::Inode { inode } => self.stat_inode(m, size, pid, id, inode, addr),
                FileType::Device { inode, major } => self.stat_inode(m, size, pid, id, inode, addr),
                _ => {
                    let p = Progress::Done(Err(SysError::BadDescriptor));
                    Some((FilesState { table: self.table.after(id, f, pid, p), ..self }, m, p))
                },
            }
        }
    }

    /// Getting metadata about a file on disk.
    pub open spec fn stat_inode(
        self,
        m: UserMem,
        size: int,
        pid: u64,
        id: int,
        inode: Inode,
        addr: int,
    ) -> Option<(FilesState, UserMem, Progress)> {
        match self.fs.lock(inode) {
            None => None,
            Some((s, d)) => {
                let stat = Stat {
                    dev: inode.dev,
                    ino: inode.inum,
                    typ: d.typ,
                    nlink: d.nlink,
                    size: d.size as u64,
                };
                match m.copy_to(size, addr, stat.bytes()) {
                    None => None,
                    Some((m, r)) => {
                        let p = match r {
                            Ok(_) => Progress::Done(Ok(0)),
                            Err(_) => Progress::Done(Err(SysError::BadAddress)),
                        };
                        Some(
                            (
                                FilesState {
                                    table: self.table.after(id, self.table.inner[id], pid, p),
                                    fs: s.unlock(inode, d),
                                    ..self
                                },
                                m,
                                p,
                            ),
                        )
                    },
                }
            },
        }
    }

    /// A request to the device of file `id`.
    pub open spec fn ioctl(self, pid: u64, id: int, cmd: u64, arg: u64) -> (FilesState, Progress) {
        let f = self.table.inner[id];
        if !self.table.free_for(id, pid) {
            (self, Progress::Sleep(0, Channel::Lock(id as usize)))
        } else {
            let (console, r) = match f.typ {
                FileType::Device { inode, major } => if major == CONSOLE {
                    self.console.ioctl(cmd, arg)
                } else {
                    (self.console, Err(SysError::NotImplemented))
                },
                _ => (self.console, Err(SysError::BadDescriptor)),
            };
            let p = Progress::Done(r);
            (FilesState { table: self.table.after(id, f, pid, p), console, ..self }, p)
        }
    }

    /// The ends of a new pipe in page `p`, when the two files have been allocated.
    pub open spec fn with_pipe(self, f0: File, f1: File, p: u64) -> FilesState {
        let read = FileInner {
            typ: FileType::Pipe { pipe: p },
            readable: true,
            writeable: false,
            ..self.table.inner[f0.id as int]
        };
        let inner = self.table.inner.update(f0.id as int, read);
        let write = FileInner {
            typ: FileType::Pipe { pipe: p },
            readable: false,
            writeable: true,
            ..inner[f1.id as int]
        };
        FilesState {
            table: TableState { inner: inner.update(f1.id as int, write), ..self.table },
            pipes: self.pipes.insert(
                p,
                PipeState { queue: seq![], read_open: true, write_open: true },
            ),
            ..self
        }
    }
}

impl File {
    /// Decrements the reference count and closes the file if it reaches 0. Says what is left to
    /// do.
    pub fn close(&self, files: &mut Files) -> (r: Closed)
        requires
            old(files).wf(),
            old(files)@.close(self.id as int) is Some,
        ensures
            final(files).wf(),
            Some((final(files)@, r)) == old(files)@.close(self.id as int),
    {
        let f = files.table.inner[self.id].data;
        let count = files.table.meta[self.id].ref_count - 1;
        files.table.meta[self.id].ref_count = count;
        let ghost table = old(files)@.table.drop_ref(self.id as int)->0;
        if count > 0 {
            proof {
                assert(files.table@.refs =~= table.refs);
                assert(files.table@.inner =~= table.inner);
                assert(files.table@.holder =~= table.holder);
                assert(files@.pipes =~= old(files)@.pipes);
            }
            return Closed { wake: None, freed: None };
        }
        files.table.inner[self.id].data = FileInner { typ: FileType::Unused, ..f };
        proof {
            assert(files.table@.refs =~= table.refs);
            assert(files.table@.inner =~= table.inner);
            assert(files.table@.holder =~= table.holder);
            assert(files@.pipes =~= old(files)@.pipes);
        }
        match f.typ {
            FileType::Unused => Closed { wake: None, freed: None },
            FileType::Pipe { pipe } => close_pipe(files, pipe, f.writeable),
            FileType::Inode { inode } => close_inode(files, inode),
            FileType::Device { inode, major: _ } => close_inode(files, inode),
        }
    }

    /// Gets metadata about file.
    pub fn stat(
        &self,
        files: &mut Files,
        data: &mut ProcData,
        kmem: &mut Kmem,
        pid: u64,
        addr: VA,
    ) -> (r: Progress)
        requires
            self.id < NFILE,
            old(files).wf(),
            old(kmem).wf(),
            old(data).ready(old(kmem)@),
            old(files)@.stat(
                old(data).mem(old(kmem)@),
                old(data).size as int,
                pid,
                self.id as int,
                addr.0 as int,
            ) is Some,
        ensures
            final(files).wf(),
            final(kmem).wf(),
            old(data).touched(old(kmem)@, *final(data), final(kmem)@),
            Some((final(files)@, final(data).mem(final(kmem)@), r)) == old(files)@.stat(
                old(data).mem(old(kmem)@),
                old(data).size as int,
                pid,
                self.id as int,
                addr.0 as int,
            ),
    {
        proof {
            kmem.lemma_wf();
            data.lemma_touched_refl(kmem@);
        }
        let f = match files.table.enter(self.id, pid) {
            None => {
                return Progress::Sleep(0, Channel::Lock(self.id));
            },
            Some(f) => f,
        };
        let inode = match f.typ {
            FileType::Inode { inode } => inode,
            FileType::Device { inode, major: _ } => inode,
            _ => {
                let p = Progress::Done(Err(SysError::BadDescriptor));
                files.table.leave(self.id, f, pid, p);
                assert(files@.pipes =~= old(files)@.pipes);
                return p;
            },
        };
        let guard = inode.lock(&mut files.fs);
        let stat = inode.stat(&guard);
        inode.unlock(&mut files.fs, guard);
        let bytes = stat.as_bytes();
        let p = match copy_to_user(data, kmem, &bytes, addr) {
            Ok(()) => Progress::Done(Ok(0)),
            Err(_) => Progress::Done(Err(SysError::BadAddress)),
        };
        files.table.leave(self.id, f, pid, p);
        assert(files@.pipes =~= old(files)@.pipes);
        p
    }

    /// Passes a request to the file's device.
    pub fn ioctl(&self, files: &mut Files, pid: u64, cmd: u64, arg: u64) -> (r: Progress)
        requires
            self.id < NFILE,
            old(files).wf(),
        ensures
            final(files).wf(),
            (final(files)@, r) == old(files)@.ioctl(pid, self.id as int, cmd, arg),
    {
        let f = match files.table.enter(self.id, pid) {
            None => {
                return Progress::Sleep(0, Channel::Lock(self.id));
            },
            Some(f) => f,
        };
        let r = match f.typ {
            FileType::Device { inode: _, major } => if major == CONSOLE {
                files.console.ioctl(cmd, arg)
            } else {
                Err(SysError::NotImplemented)
            },
            _ => Err(SysError::BadDescriptor),
        };
        let p = Progress::Done(r);
        files.table.leave(self.id, f, pid, p);
        assert(files@.pipes =~= old(files)@.pipes);
        p
    }
}

/// Closes an end of a pipe.
fn close_pipe(files: &mut Files, pipe: u64, writeable: bool) -> (r: Closed)
    requires
        old(files).wf(),
        old(files)@.close_pipe(pipe, writeable) is Some,
    ensures
        final(files).wf(),
        Some((final(files)@, r)) == old(files)@.close_pipe(pipe, writeable),
{
    let mut p = files.take_pipe(pipe);
    let wake = Some(p.close(writeable));
    if p.is_closed() {
        assert(files@.pipes =~= old(files)@.pipes.remove(pipe));
        Closed { wake, freed: Some(pipe) }
    } else {
        files.put_pipe(pipe, p);
        assert(files@.pipes =~= old(files)@.pipes.insert(pipe, p@));
        Closed { wake, freed: None }
    }
}

/// Closes a file on disk.
fn close_inode(files: &mut Files, inode: Inode) -> (r: Closed)
    requires
        old(files).wf(),
        old(files)@.close_inode(inode) is Some,
    ensures
        final(files).wf(),
        Some((final(files)@, r)) == old(files)@.close_inode(inode),
{
    files.fs.begin_op();
    inode.put(&mut files.fs);
    files.fs.end_op();
    assert(files@.pipes =~= old(files)@.pipes);
    Closed { wake: None, freed: None }
}

impl Pipe {
    /// Allocates a new pipe, in a page of its own, and returns the read and write end.
    pub fn allocate(files: &mut Files, kmem: &mut Kmem) -> (r: Result<(File, File), FsError>)
        requires
            old(files).wf(),
            old(kmem).wf(),
            old(files)@.table.tidy(),
        ensures
            final(files).wf(),
            final(kmem).wf(),
            ({
                let (t0, f0) = old(files)@.table.allocated();
                let (t1, f1) = t0.allocated();
                match r {
                    Ok((a, b)) => {
                        &&& f0 == Ok::<File, FsError>(a) && f1 == Ok::<File, FsError>(b)
                        &&& exists|p: u64| #[trigger]
                            old(kmem)@.free.contains(p) && final(kmem)@ == old(kmem)@.allocated(
                                p,
                                Content::Page(zero_page()),
                            ) && final(files)@ == (FilesState {
                                table: t1,
                                ..old(files)@
                            }).with_pipe(a, b, p)
                    },
                    Err(e) => {
                        &&& final(kmem)@ == old(kmem)@
                        &&& f0 is Err || f1 is Err || old(kmem)@.free.len() == 0
                        &&& e == (if f0 is Err || f1 is Err {
                            FsError::OutOfFile
                        } else {
                            FsError::OutOfPipe
                        })
                        &&& final(files)@ == old(files)@
                    },
                }
            }),
    {
        let ghost s0 = files@;
        let f0 = match File::allocate(&mut files.table) {
            Ok(f) => f,
            Err(e) => {
                assert(files@ =~= s0);
                return Err(e);
            },
        };
        let ghost t0 = files.table@;
        proof {
            lemma_first_free(s0.table, 0);
            lemma_first_free(t0, 0);
            assert(s0.table.refs[f0.id as int] == 0);
            assert(files@.pipes =~= s0.pipes);
        }
        let f1 = match File::allocate(&mut files.table) {
            Ok(f) => f,
            Err(e) => {
                f0.close(files);
                assert(files@.table =~= s0.table);
                assert(files@ =~= s0);
                return Err(e);
            },
        };
        let ghost s1 = files@;
        proof {
            assert(t0.refs[f1.id as int] == 0);
            assert(s0.table.refs[f1.id as int] == 0);
            assert(files@.pipes =~= s0.pipes);
        }
        let page = match kmem.allocate_page() {
            Some(p) => p,
            None => {
                f0.close(files);
                f1.close(files);
                assert(files@.table =~= s0.table);
                assert(files@ =~= s0);
                return Err(FsError::OutOfPipe);
            },
        };
        let i0 = files.table.inner[f0.id].data;
        files.table.set(
            f0.id,
            FileInner {
                typ: FileType::Pipe { pipe: page },
                readable: true,
                writeable: false,
                ..i0
            },
        );
        let i1 = files.table.inner[f1.id].data;
        files.table.set(
            f1.id,
            FileInner {
                typ: FileType::Pipe { pipe: page },
                readable: false,
                writeable: true,
                ..i1
            },
        );
        files.put_pipe(page, Pipe::new(page));
        proof {
            assert(files@ =~= s1.with_pipe(f0, f1, page));
        }
        Ok((f0, f1))
    }
}

/// Files that nothing refers to stay forgotten: whatever is done to a table keeps it so.
pub proof fn law_table_tidy(t: TableState, i: int, f: FileInner, pid: u64, progress: Progress)
    requires
        t.full(),
        t.tidy(),
        0 <= i < NFILE,
    ensures
        t.allocated().0.tidy(),
        t.dup(i) matches Some(u) ==> u.tidy(),
        t.drop_ref(i) matches Some(u) ==> u.tidy(),
        t.refs[i] > 0 ==> t.after(i, f, pid, progress).tidy(),
{
    lemma_first_free(t, 0);
}

/// Duplicating a file and closing it again changes nothing.
pub proof fn law_dup_close(s: FilesState, i: int)
    requires
        s.table.full(),
        s.table.dup(i) is Some,
    ensures
        (FilesState { table: s.table.dup(i)->0, ..s }).close(i) == Some(
            (s, Closed { wake: None, freed: None }),
        ),
{
    let t = s.table.dup(i)->0;
    assert(t.drop_ref(i)->0 =~= s.table);
    assert((FilesState { table: t.drop_ref(i)->0, ..s }) =~= s);
}

/// A file that was allocated was not in use, and no other file is touched.
pub proof fn law_allocate_file(t: TableState)
    requires
        t.full(),
    ensures
        match t.allocated() {
            (u, Ok(f)) => {
                &&& f.id < NFILE
                &&& u.full()
                &&& t.refs[f.id as int] == 0
                &&& u.refs[f.id as int] == 1
                &&& u.inner == t.inner && u.holder == t.holder
                &&& forall|j: int| 0 <= j < f.id ==> #[trigger] t.refs[j] != 0
                &&& forall|j: int| 0 <= j < NFILE && j != f.id ==> #[trigger] u.refs[j] == t.refs[j]
            },
            (u, Err(e)) => u == t && e == FsError::OutOfFile && forall|j: int|
                0 <= j < NFILE ==> #[trigger] t.refs[j] != 0,
        },
{
    lemma_first_free(t, 0);
}

proof fn lemma_first_free(t: TableState, i: int)
    requires
        0 <= i <= NFILE,
    ensures
        i <= t.first_free(i) <= NFILE,
        t.first_free(i) < NFILE ==> t.refs[t.first_free(i)] == 0,
        forall|j: int| i <= j < t.first_free(i) ==> #[trigger] t.refs[j] != 0,
    decreases NFILE - i,
{
    if i < NFILE && t.refs[i] != 0 {
        lemma_first_free(t, i + 1);
    }
}

} // verus!
