//! Writing to open files.
use vstd::prelude::*;
use crate::abi::SysError;
use crate::file::{File, FileInner, FileType, Files, FilesState, CONSOLE};
use crate::fs::table::{Fs, FsState};
use crate::fs::Inode;
use crate::kalloc::Kmem;
use crate::param::{NDEV, NFILE};
use crate::pipe::Progress;
use crate::proc::{Channel, ProcData};
use crate::vm::uvm::kmem_ok;
use crate::vm::{UserMem, VA};

verus! {

/// How many bytes of a file are written in one operation on the log: a few blocks at a time, to
/// avoid exceeding the maximum log transaction size, including inode, indirect block, allocation
/// blocks, and 2 blocks of slop for non-aligned writes.
pub const MAXWRITE: u64 = 3072;

impl FsState {
    /// Writing `n` bytes from `addr` to `inode` at `offset`, in an operation of its own.
    pub open spec fn write_op(self, m: UserMem, size: int, inode: Inode, offset: u32, addr: int, n: u32) -> Option<
        (FsState, UserMem, Option<u32>),
    > {
        match self.begin() {
            None => None,
            Some(s) => match s.lock(inode) {
                None => None,
                Some((s, d)) => match s.store.write_user(
                    s.sb,
                    inode.dev,
                    inode.inum,
                    d,
                    offset,
                    n,
                    m,
                    size,
                    addr,
                ) {
                    None => None,
                    Some((st, d, m, r)) => match (FsState { store: st, ..s }).unlock(inode, d).end() {
                        None => None,
                        Some(s) => Some(
                            (
                                s,
                                m,
                                match r {
                                    Ok(w) => Some(w),
                                    Err(_) => None,
                                },
                            ),
                        ),
                    },
                },
            },
        }
    }

    /// Writing the bytes from `addr + i` up to `addr + n` to `inode` at `offset`, some blocks at a
    /// time, up to an error. Gives the offset and how many bytes were written. `None` where an
    /// operation cannot be done or writes nothing, again and again.
    pub open spec fn write_ops(
        self,
        m: UserMem,
        size: int,
        inode: Inode,
        offset: u32,
        addr: int,
        n: int,
        i: int,
    ) -> Option<(FsState, UserMem, u32, int)>
        decreases n - i,
    {
        if i >= n {
            Some((self, m, offset, i))
        } else {
            let n1 = if n - i < MAXWRITE {
                n - i
            } else {
                MAXWRITE as int
            };
            if addr + i > u64::MAX {
                None
            } else {
                match self.write_op(m, size, inode, offset, addr + i, n1 as u32) {
                    None => None,
                    Some((s, m, None)) => Some((s, m, offset, i)),
                    Some((s, m, Some(w))) => if w == 0 || w > n1 || offset + w > u32::MAX {
                        None
                    } else {
                        s.write_ops(m, size, inode, (offset + w) as u32, addr, n, i + w)
                    },
                }
            }
        }
    }
}

impl FilesState {
    /// Writing to a pipe.
    pub open spec fn write_pipe(
        self,
        m: UserMem,
        size: int,
        pid: u64,
        killed: bool,
        id: int,
        pipe: u64,
        addr: int,
        n: u64,
        done: u64,
    ) -> Option<(FilesState, UserMem, Progress, Option<Channel>)> {
        if !self.pipes.contains_key(pipe) {
            None
        } else {
            match self.pipes[pipe].write(m, size, addr, n as int, done as int, killed, pipe) {
                None => None,
                Some((p, m, r, wake)) => Some(
                    (
                        FilesState {
                            table: self.table.after(id, self.table.inner[id], pid, r),
                            pipes: self.pipes.insert(pipe, p),
                            ..self
                        },
                        m,
                        r,
                        if wake {
                            Some(Channel::PipeRead(pipe))
                        } else {
                            None
                        },
                    ),
                ),
            }
        }
    }

    /// Writing to a file on disk, at its offset, which moves on.
    pub open spec fn write_file(
        self,
        m: UserMem,
        size: int,
        pid: u64,
        id: int,
        inode: Inode,
        addr: int,
        n: u64,
    ) -> Option<(FilesState, UserMem, Progress, Option<Channel>)> {
        let f = self.table.inner[id];
        match self.fs.write_ops(m, size, inode, f.offset, addr, n as int, 0) {
            None => None,
            Some((fs, m, offset, i)) => {
                let p = if i == n {
                    Progress::Done(Ok(n))
                } else {
                    Progress::Done(Err(SysError::IoError))
                };
                Some(
                    (
                        FilesState {
                            table: self.table.after(id, FileInner { offset, ..f }, pid, p),
                            fs,
                            ..self
                        },
                        m,
                        p,
                        None,
                    ),
                )
            },
        }
    }

    /// Writing to a device.
    pub open spec fn write_device(
        self,
        m: UserMem,
        size: int,
        pid: u64,
        id: int,
        major: u16,
        addr: int,
        n: u64,
    ) -> Option<(FilesState, UserMem, Progress, Option<Channel>)> {
        let f = self.table.inner[id];
        if major >= NDEV {
            None
        } else if major != CONSOLE {
            let p = Progress::Done(Err(SysError::NoEntry));
            Some((FilesState { table: self.table.after(id, f, pid, p), ..self }, m, p, None))
        } else {
            match self.console.write(m, size, addr, n as int, 0) {
                None => None,
                Some((c, m, k)) => {
                    let p = Progress::Done(Ok(k));
                    Some(
                        (
                            FilesState {
                                table: self.table.after(id, f, pid, p),
                                console: c,
                                ..self
                            },
                            m,
                            p,
                            None,
                        ),
                    )
                },
            }
        }
    }

    /// Writing `n` bytes from `addr` to file `id`, of which `done` were written before process
    /// `pid` slept. Says also who is to be woken up. `None` where the file is not open or something
    /// that is needed is not there.
    pub open spec fn write(
        self,
        m: UserMem,
        size: int,
        pid: u64,
        killed: bool,
        id: int,
        addr: int,
        n: u64,
        done: u64,
    ) -> Option<(FilesState, UserMem, Progress, Option<Channel>)> {
        let f = self.table.inner[id];
        if !self.table.free_for(id, pid) {
            Some((self, m, Progress::Sleep(done, Channel::Lock(id as usize)), None))
        } else if !f.writeable {
            let p = Progress::Done(Err(SysError::BadDescriptor));
            Some((FilesState { table: self.table.after(id, f, pid, p), ..self }, m, p, None))
        } else {
            match f.typ {
                FileType::Unused => None,
                FileType::Pipe { pipe } => self.write_pipe(
                    m,
                    size,
                    pid,
                    killed,
                    id,
                    pipe,
                    addr,
                    n,
                    done,
                ),
                FileType::Inode { inode } => self.write_file(m, size, pid, id, inode, addr, n),
                FileType::Device { inode, major } => self.write_device(
                    m,
                    size,
                    pid,
                    id,
                    major,
                    addr,
                    n,
                ),
            }
        }
    }
}

/// Writes `n` bytes from `addr` to `inode` at `offset`, in an operation of its own. `None` says
/// that there was an error.
fn write_op(
    fs: &mut Fs,
    data: &mut ProcData,
    kmem: &mut Kmem,
    inode: Inode,
    offset: u32,
    addr: VA,
    n: u32,
) -> (r: Option<u32>)
    requires
        old(fs).wf(),
        old(kmem).wf(),
        old(data).ready(old(kmem)@),
        old(fs)@.write_op(
            old(data).mem(old(kmem)@),
            old(data).size as int,
            inode,
            offset,
            addr.0 as int,
            n,
        ) is Some,
    ensures
        final(fs).wf(),
        final(kmem).wf(),
        old(data).touched(old(kmem)@, *final(data), final(kmem)@),
        Some((final(fs)@, final(data).mem(final(kmem)@), r)) == old(fs)@.write_op(
            old(data).mem(old(kmem)@),
            old(data).size as int,
            inode,
            offset,
            addr.0 as int,
            n,
        ),
{
    fs.begin_op();
    let mut guard = inode.lock(fs);
    let sb = fs.superblock();
    let ghost fs1 = fs@;
    let written = inode.write_user(&mut fs.store, &sb, &mut guard, offset, data, kmem, addr, n);
    assert(fs@ =~= FsState { store: fs.store@, ..fs1 });
    inode.unlock(fs, guard);
    fs.end_op();
    match written {
        Ok(w) => Some(w),
        Err(_) => None,
    }
}

impl File {
    /// Writes to a file: `n` bytes from `addr`, of which `done` were written before the process
    /// slept. Returns also who is to be woken up.
    pub fn write(
        &self,
        files: &mut Files,
        data: &mut ProcData,
        kmem: &mut Kmem,
        pid: u64,
        killed: bool,
        addr: VA,
        n: u64,
        done: u64,
    ) -> (r: (Progress, Option<Channel>))
        requires
            self.id < NFILE,
            old(files).wf(),
            old(kmem).wf(),
            old(data).ready(old(kmem)@),
            old(files)@.write(
                old(data).mem(old(kmem)@),
                old(data).size as int,
                pid,
                killed,
                self.id as int,
                addr.0 as int,
                n,
                done,
            ) is Some,
        ensures
            final(files).wf(),
            final(kmem).wf(),
            old(data).touched(old(kmem)@, *final(data), final(kmem)@),
            Some((final(files)@, final(data).mem(final(kmem)@), r.0, r.1)) == old(files)@.write(
                old(data).mem(old(kmem)@),
                old(data).size as int,
                pid,
                killed,
                self.id as int,
                addr.0 as int,
                n,
                done,
            ),
    {
        proof {
            kmem.lemma_wf();
            data.lemma_touched_refl(kmem@);
        }
        let f = match files.table.enter(self.id, pid) {
            None => {
                return (Progress::Sleep(done, Channel::Lock(self.id)), None);
            },
            Some(f) => f,
        };
        if !f.writeable {
            let p = Progress::Done(Err(SysError::BadDescriptor));
            files.table.leave(self.id, f, pid, p);
            assert(files@.pipes =~= old(files)@.pipes);
            return (p, None);
        }
        match f.typ {
            FileType::Unused => (Progress::Done(Err(SysError::BadDescriptor)), None),
            FileType::Pipe { pipe } => {
                let mut p = files.take_pipe(pipe);
                let (r, wake) = p.write(data, kmem, addr, n, done, killed);
                files.put_pipe(pipe, p);
                files.table.leave(self.id, f, pid, r);
                assert(files@.pipes =~= old(files)@.pipes.insert(pipe, p@));
                (
                    r,
                    if wake {
                        Some(Channel::PipeRead(pipe))
                    } else {
                        None
                    },
                )
            },
            FileType::Inode { inode } => {
                let p = self.write_file(files, data, kmem, pid, inode, addr, n, f);
                (p, None)
            },
            FileType::Device { inode, major } => {
                if major != CONSOLE {
                    let p = Progress::Done(Err(SysError::NoEntry));
                    files.table.leave(self.id, f, pid, p);
                    assert(files@.pipes =~= old(files)@.pipes);
                    return (p, None);
                }
                let k = files.console.write(data, kmem, addr, n);
                let p = Progress::Done(Ok(k));
                files.table.leave(self.id, f, pid, p);
                assert(files@.pipes =~= old(files)@.pipes);
                (p, None)
            },
        }
    }

    /// Writes to a file on disk.
    fn write_file(
        &self,
        files: &mut Files,
        data: &mut ProcData,
        kmem: &mut Kmem,
        pid: u64,
        inode: Inode,
        addr: VA,
        n: u64,
        f: FileInner,
    ) -> (r: Progress)
        requires
            self.id < NFILE,
            old(files).wf(),
            old(kmem).wf(),
            old(data).ready(old(kmem)@),
            f == old(files)@.table.inner[self.id as int],
            old(files)@.write_file(
                old(data).mem(old(kmem)@),
                old(data).size as int,
                pid,
                self.id as int,
                inode,
                addr.0 as int,
                n,
            ) is Some,
        ensures
            final(files).wf(),
            final(kmem).wf(),
            old(data).touched(old(kmem)@, *final(data), final(kmem)@),
            Some((final(files)@, final(data).mem(final(kmem)@), r, None::<Channel>)) == old(
                files,
            )@.write_file(
                old(data).mem(old(kmem)@),
                old(data).size as int,
                pid,
                self.id as int,
                inode,
                addr.0 as int,
                n,
            ),
    {
        let ghost d0 = *data;
        let ghost k0 = kmem@;
        let ghost want = files.fs@.write_ops(
            data.mem(k0),
            data.size as int,
            inode,
            f.offset,
            addr.0 as int,
            n as int,
            0,
        );
        proof {
            kmem.lemma_wf();
            data.lemma_touched_refl(k0);
        }
        let mut offset: u32 = f.offset;
        let mut i: u64 = 0;
        while i < n
            invariant_except_break
                want == files.fs@.write_ops(
                    data.mem(kmem@),
                    d0.size as int,
                    inode,
                    offset,
                    addr.0 as int,
                    n as int,
                    i as int,
                ),
            invariant
                want is Some,
                i <= n,
                k0 == old(kmem)@,
                d0 == *old(data),
                kmem_ok(k0),
                d0.ready(k0),
                files.wf(),
                files.table == old(files).table,
                files.pipes == old(files).pipes,
                files.console == old(files).console,
                kmem.wf(),
                data.ready(kmem@),
                d0.touched(k0, *data, kmem@),
            ensures
                want == Some((files.fs@, data.mem(kmem@), offset, i as int)),
            decreases n - i,
        {
            let n1: u64 = if n - i < MAXWRITE {
                n - i
            } else {
                MAXWRITE
            };
            let ghost d1 = *data;
            let ghost k1 = kmem@;
            proof {
                kmem.lemma_wf();
            }
            let to = VA(addr.0 + i);
            let written = write_op(&mut files.fs, data, kmem, inode, offset, to, n1 as u32);
            proof {
                d0.lemma_touched_trans(k0, d1, k1, *data, kmem@);
            }
            match written {
                Some(w) => {
                    offset += w;
                    i += w as u64;
                },
                None => {
                    break;
                },
            }
        }
        let p = if i == n {
            Progress::Done(Ok(n))
        } else {
            Progress::Done(Err(SysError::IoError))
        };
        files.table.leave(self.id, FileInner { offset, ..f }, pid, p);
        assert(files@.pipes =~= old(files)@.pipes);
        p
    }
}

} // verus!
