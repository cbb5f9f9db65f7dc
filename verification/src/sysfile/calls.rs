//! The system calls on files.
use vstd::prelude::*;
use crate::abi::SysError;
use crate::file::{File, Files, FilesState};
use crate::fs::inode::InodeType;
use crate::fs::ops::{chdir, link, make_node, unlink};
use crate::fs::path::Path;
use crate::fs::table::FsState;
use crate::fs::Inode;
use crate::kalloc::{Kmem, KmemState};
use crate::param::{MAXPATH, NFILE, NOFILE};
use crate::pipe::Progress;
use crate::proc::{Channel, ProcData};
use crate::syscall::{fetch_string, file_of, SyscallArgs};
use crate::sysfile::{fd_alloc, fd_given, open_path};
use crate::vm::UserMem;

verus! {

/// What system calls on files work on.
#[verifier::ext_equal]
pub struct CallState {
    pub files: FilesState,
    /// The memory of the process
    pub mem: UserMem,
    /// Its descriptors
    pub open: Seq<Option<File>>,
    /// Its current directory
    pub cwd: Inode,
}

/// What the system calls of the process with `data` work on.
pub open spec fn call_state(files: FilesState, data: ProcData, k: KmemState) -> CallState {
    CallState { files, mem: data.mem(k), open: data.open_files@, cwd: data.cwd }
}

/// From `old` in `k0` to `new` in `k1` the process changed its memory, descriptors and current
/// directory, and nothing else of its own or of others.
pub open spec fn called(old_data: ProcData, k0: KmemState, new: ProcData, k1: KmemState) -> bool {
    &&& new.open_files@.len() == NOFILE
    &&& (ProcData { open_files: new.open_files, cwd: new.cwd, ..old_data }).touched(k0, new, k1)
}

/// Everything is in order for a system call.
pub open spec fn callable(files: Files, data: ProcData, kmem: Kmem) -> bool {
    &&& files.wf()
    &&& kmem.wf()
    &&& data.ready(kmem@)
    &&& data.open_files@.len() == NOFILE
}

impl CallState {
    /// Fetching the path at `addr`.
    pub open spec fn fetch(self, size: int, addr: u64) -> Option<
        (CallState, Result<Seq<u8>, SysError>),
    > {
        match self.mem.fetch(size, addr as int, MAXPATH as int, 0, seq![]) {
            None => None,
            Some((mem, r)) => Some((CallState { mem, ..self }, r)),
        }
    }

    /// Beginning an operation on the log.
    pub open spec fn begin(self) -> Option<CallState> {
        match self.files.fs.begin() {
            None => None,
            Some(fs) => Some(self.with_fs(fs)),
        }
    }

    /// Ending an operation on the log.
    pub open spec fn end(self, r: Result<u64, SysError>) -> Option<
        (CallState, Result<u64, SysError>),
    > {
        match self.files.fs.end() {
            None => None,
            Some(fs) => Some((self.with_fs(fs), r)),
        }
    }

    pub open spec fn with_fs(self, fs: FsState) -> CallState {
        CallState { files: FilesState { fs, ..self.files }, ..self }
    }

    /// A second descriptor for the same file.
    pub open spec fn sys_dup(self, args: SyscallArgs) -> Option<(CallState, Result<u64, SysError>)> {
        match file_of(self.open, args.arg(0) as i64) {
            Err(e) => Some((self, Err(e))),
            Ok((_, file)) => match fd_given(self.open, file) {
                (open, Err(e)) => Some((self, Err(e))),
                (open, Ok(fd)) => match self.files.table.dup(file.id as int) {
                    None => None,
                    Some(table) => Some(
                        (
                            CallState { files: FilesState { table, ..self.files }, open, ..self },
                            Ok(fd),
                        ),
                    ),
                },
            },
        }
    }

    /// Reading from a file.
    pub open spec fn sys_read(
        self,
        size: int,
        args: SyscallArgs,
        pid: u64,
        killed: bool,
        done: u64,
    ) -> Option<(CallState, Progress, Option<Channel>)> {
        match file_of(self.open, args.arg(0) as i64) {
            Err(e) => Some((self, Progress::Done(Err(e)), None)),
            Ok((_, file)) => if file.id >= NFILE {
                None
            } else {
                match self.files.read(
                    self.mem,
                    size,
                    pid,
                    killed,
                    file.id as int,
                    args.arg(1) as int,
                    args.arg(2),
                    done,
                ) {
                    None => None,
                    Some((files, mem, p, w)) => Some((CallState { files, mem, ..self }, p, w)),
                }
            },
        }
    }

    /// Writing to a file.
    pub open spec fn sys_write(
        self,
        size: int,
        args: SyscallArgs,
        pid: u64,
        killed: bool,
        done: u64,
    ) -> Option<(CallState, Progress, Option<Channel>)> {
        match file_of(self.open, args.arg(0) as i64) {
            Err(e) => Some((self, Progress::Done(Err(e)), None)),
            Ok((_, file)) => if file.id >= NFILE {
                None
            } else {
                match self.files.write(
                    self.mem,
                    size,
                    pid,
                    killed,
                    file.id as int,
                    args.arg(1) as int,
                    args.arg(2),
                    done,
                ) {
                    None => None,
                    Some((files, mem, p, w)) => Some((CallState { files, mem, ..self }, p, w)),
                }
            },
        }
    }

    /// Getting metadata about a file.
    pub open spec fn sys_fstat(self, size: int, args: SyscallArgs, pid: u64) -> Option<
        (CallState, Progress),
    > {
        match file_of(self.open, args.arg(0) as i64) {
            Err(e) => Some((self, Progress::Done(Err(e)))),
            Ok((_, file)) => if file.id >= NFILE {
                None
            } else {
                match self.files.stat(self.mem, size, pid, file.id as int, args.arg(1) as int) {
                    None => None,
                    Some((files, mem, p)) => Some((CallState { files, mem, ..self }, p)),
                }
            },
        }
    }

    /// A request to a device.
    pub open spec fn sys_ioctl(self, args: SyscallArgs, pid: u64) -> Option<(CallState, Progress)> {
        match file_of(self.open, args.arg(0) as i64) {
            Err(e) => Some((self, Progress::Done(Err(e)))),
            Ok((_, file)) => if file.id >= NFILE {
                None
            } else {
                let (files, p) = self.files.ioctl(pid, file.id as int, args.arg(1), args.arg(2));
                Some((CallState { files, ..self }, p))
            },
        }
    }

    /// Another name for a file.
    pub open spec fn sys_link(self, size: int, args: SyscallArgs) -> Option<
        (CallState, Result<u64, SysError>),
    > {
        match self.fetch(size, args.arg(0)) {
            None => None,
            Some((s, Err(e))) => Some((s, Err(e))),
            Some((s, Ok(from))) => match s.fetch(size, args.arg(1)) {
                None => None,
                Some((s, Err(e))) => Some((s, Err(e))),
                Some((s, Ok(to))) => match s.begin() {
                    None => None,
                    Some(s) => match s.files.fs.link(from, to, s.cwd) {
                        None => None,
                        Some((fs, r)) => s.with_fs(fs).end(r),
                    },
                },
            },
        }
    }

    /// Removing a name.
    pub open spec fn sys_unlink(self, size: int, args: SyscallArgs) -> Option<
        (CallState, Result<u64, SysError>),
    > {
        match self.fetch(size, args.arg(0)) {
            None => None,
            Some((s, Err(e))) => Some((s, Err(e))),
            Some((s, Ok(path))) => match s.begin() {
                None => None,
                Some(s) => match s.files.fs.unlink(path, s.cwd) {
                    None => None,
                    Some((fs, r)) => s.with_fs(fs).end(r),
                },
            },
        }
    }

    /// Opening a file.
    pub open spec fn sys_open(self, size: int, args: SyscallArgs) -> Option<
        (CallState, Result<u64, SysError>),
    > {
        match self.fetch(size, args.arg(0)) {
            None => None,
            Some((s, Err(e))) => Some((s, Err(e))),
            Some((s, Ok(path))) => match s.files.open(s.open, path, s.cwd, args.arg(1)) {
                None => None,
                Some((files, open, r)) => Some((CallState { files, open, ..s }, r)),
            },
        }
    }

    /// Making a directory or a device.
    pub open spec fn sys_make(self, size: int, args: SyscallArgs, typ: InodeType, major: u16, minor: u16) -> Option<
        (CallState, Result<u64, SysError>),
    > {
        match self.begin() {
            None => None,
            Some(s) => match s.fetch(size, args.arg(0)) {
                None => None,
                Some((s, Err(e))) => s.end(Err(e)),
                Some((s, Ok(path))) => match s.files.fs.make_node(path, s.cwd, typ, major, minor) {
                    None => None,
                    Some((fs, r)) => s.with_fs(fs).end(r),
                },
            },
        }
    }

    /// Changing the current directory.
    pub open spec fn sys_chdir(self, size: int, args: SyscallArgs) -> Option<
        (CallState, Result<u64, SysError>),
    > {
        match self.begin() {
            None => None,
            Some(s) => match s.fetch(size, args.arg(0)) {
                None => None,
                Some((s, Err(e))) => s.end(Err(e)),
                Some((s, Ok(path))) => match s.files.fs.chdir(path, s.cwd) {
                    None => None,
                    Some((fs, cwd, r)) => (CallState { cwd, ..s }).with_fs(fs).end(r),
                },
            },
        }
    }
}

pub fn sys_dup(args: &SyscallArgs, data: &mut ProcData, kmem: &Kmem, files: &mut Files) -> (r: Result<
    u64,
    SysError,
>)
    requires
        callable(*old(files), *old(data), *kmem),
        call_state(old(files)@, *old(data), kmem@).sys_dup(*args) is Some,
    ensures
        callable(*final(files), *final(data), *kmem),
        called(*old(data), kmem@, *final(data), kmem@),
        Some((call_state(final(files)@, *final(data), kmem@), r)) == call_state(
            old(files)@,
            *old(data),
            kmem@,
        ).sys_dup(*args),
{
    proof {
        kmem.lemma_wf();
        data.lemma_touched_refl(kmem@);
    }
    let file = match args.get_file(0, data) {
        Ok((_, file)) => file,
        Err(e) => {
            return Err(e);
        },
    };
    let fd = match fd_alloc(&mut data.open_files, file) {
        Ok(fd) => fd,
        Err(e) => {
            return Err(e);
        },
    };
    let _ = file.dup(&mut files.table);
    proof {
        data.lemma_touched_refl(kmem@);
        assert(files@.pipes =~= old(files)@.pipes);
    }
    Ok(fd)
}

pub fn sys_read(
    args: &SyscallArgs,
    data: &mut ProcData,
    kmem: &mut Kmem,
    files: &mut Files,
    pid: u64,
    killed: bool,
    done: u64,
) -> (r: (Progress, Option<Channel>))
    requires
        callable(*old(files), *old(data), *old(kmem)),
        call_state(old(files)@, *old(data), old(kmem)@).sys_read(
            old(data).size as int,
            *args,
            pid,
            killed,
            done,
        ) is Some,
    ensures
        callable(*final(files), *final(data), *final(kmem)),
        called(*old(data), old(kmem)@, *final(data), final(kmem)@),
        Some((call_state(final(files)@, *final(data), final(kmem)@), r.0, r.1)) == call_state(
            old(files)@,
            *old(data),
            old(kmem)@,
        ).sys_read(old(data).size as int, *args, pid, killed, done),
{
    proof {
        kmem.lemma_wf();
        data.lemma_touched_refl(kmem@);
    }
    let addr = args.get_addr(1);
    let n = args.get_raw(2);
    match args.get_file(0, data) {
        Ok((_, file)) => file.read(files, data, kmem, pid, killed, addr, n, done),
        Err(e) => (Progress::Done(Err(e)), None),
    }
}

pub fn sys_write(
    args: &SyscallArgs,
    data: &mut ProcData,
    kmem: &mut Kmem,
    files: &mut Files,
    pid: u64,
    killed: bool,
    done: u64,
) -> (r: (Progress, Option<Channel>))
    requires
        callable(*old(files), *old(data), *old(kmem)),
        call_state(old(files)@, *old(data), old(kmem)@).sys_write(
            old(data).size as int,
            *args,
            pid,
            killed,
            done,
        ) is Some,
    ensures
        callable(*final(files), *final(data), *final(kmem)),
        called(*old(data), old(kmem)@, *final(data), final(kmem)@),
        Some((call_state(final(files)@, *final(data), final(kmem)@), r.0, r.1)) == call_state(
            old(files)@,
            *old(data),
            old(kmem)@,
        ).sys_write(old(data).size as int, *args, pid, killed, done),
{
    proof {
        kmem.lemma_wf();
        data.lemma_touched_refl(kmem@);
    }
    let addr = args.get_addr(1);
    let n = args.get_raw(2);
    match args.get_file(0, data) {
        Ok((_, file)) => file.write(files, data, kmem, pid, killed, addr, n, done),
        Err(e) => (Progress::Done(Err(e)), None),
    }
}

pub fn sys_fstat(
    args: &SyscallArgs,
    data: &mut ProcData,
    kmem: &mut Kmem,
    files: &mut Files,
    pid: u64,
) -> (r: Progress)
    requires
        callable(*old(files), *old(data), *old(kmem)),
        call_state(old(files)@, *old(data), old(kmem)@).sys_fstat(
            old(data).size as int,
            *args,
            pid,
        ) is Some,
    ensures
        callable(*final(files), *final(data), *final(kmem)),
        called(*old(data), old(kmem)@, *final(data), final(kmem)@),
        Some((call_state(final(files)@, *final(data), final(kmem)@), r)) == call_state(
            old(files)@,
            *old(data),
            old(kmem)@,
        ).sys_fstat(old(data).size as int, *args, pid),
{
    proof {
        kmem.lemma_wf();
        data.lemma_touched_refl(kmem@);
    }
    let addr = args.get_addr(1);
    match args.get_file(0, data) {
        Ok((_, file)) => file.stat(files, data, kmem, pid, addr),
        Err(e) => Progress::Done(Err(e)),
    }
}

pub fn sys_ioctl(args: &SyscallArgs, data: &ProcData, kmem: &Kmem, files: &mut Files, pid: u64) -> (r: Progress)
    requires
        callable(*old(files), *data, *kmem),
        call_state(old(files)@, *data, kmem@).sys_ioctl(*args, pid) is Some,
    ensures
        callable(*final(files), *data, *kmem),
        Some((call_state(final(files)@, *data, kmem@), r)) == call_state(
            old(files)@,
            *data,
            kmem@,
        ).sys_ioctl(*args, pid),
{
    let cmd = args.get_raw(1);
    let arg = args.get_raw(2);
    match args.get_file(0, data) {
        Ok((_, file)) => file.ioctl(files, pid, cmd, arg),
        Err(e) => Progress::Done(Err(e)),
    }
}

pub fn sys_link(args: &SyscallArgs, data: &mut ProcData, kmem: &mut Kmem, files: &mut Files) -> (r: Result<
    u64,
    SysError,
>)
    requires
        callable(*old(files), *old(data), *old(kmem)),
        call_state(old(files)@, *old(data), old(kmem)@).sys_link(
            old(data).size as int,
            *args,
        ) is Some,
    ensures
        callable(*final(files), *final(data), *final(kmem)),
        called(*old(data), old(kmem)@, *final(data), final(kmem)@),
        Some((call_state(final(files)@, *final(data), final(kmem)@), r)) == call_state(
            old(files)@,
            *old(data),
            old(kmem)@,
        ).sys_link(old(data).size as int, *args),
{
    let ghost d0 = *data;
    let ghost k0 = kmem@;
    proof {
        kmem.lemma_wf();
    }
    let from = match fetch_string(data, kmem, args.get_addr(0), MAXPATH) {
        Ok(s) => s,
        Err(e) => {
            return Err(e);
        },
    };
    let ghost d1 = *data;
    let ghost k1 = kmem@;
    proof {
        kmem.lemma_wf();
    }
    let fetched = fetch_string(data, kmem, args.get_addr(1), MAXPATH);
    proof {
        d0.lemma_touched_trans(k0, d1, k1, *data, kmem@);
    }
    let to = match fetched {
        Ok(s) => s,
        Err(e) => {
            return Err(e);
        },
    };
    let cwd = data.cwd;
    files.fs.begin_op();
    let r = link(&mut files.fs, &Path::new(&from), &Path::new(&to), &cwd);
    files.fs.end_op();
    assert(files@.pipes =~= old(files)@.pipes);
    r
}

pub fn sys_unlink(args: &SyscallArgs, data: &mut ProcData, kmem: &mut Kmem, files: &mut Files) -> (r: Result<
    u64,
    SysError,
>)
    requires
        callable(*old(files), *old(data), *old(kmem)),
        call_state(old(files)@, *old(data), old(kmem)@).sys_unlink(
            old(data).size as int,
            *args,
        ) is Some,
    ensures
        callable(*final(files), *final(data), *final(kmem)),
        called(*old(data), old(kmem)@, *final(data), final(kmem)@),
        Some((call_state(final(files)@, *final(data), final(kmem)@), r)) == call_state(
            old(files)@,
            *old(data),
            old(kmem)@,
        ).sys_unlink(old(data).size as int, *args),
{
    let path = match fetch_string(data, kmem, args.get_addr(0), MAXPATH) {
        Ok(s) => s,
        Err(e) => {
            return Err(e);
        },
    };
    let cwd = data.cwd;
    files.fs.begin_op();
    let r = unlink(&mut files.fs, &Path::new(&path), &cwd);
    files.fs.end_op();
    assert(files@.pipes =~= old(files)@.pipes);
    r
}

pub fn sys_open(args: &SyscallArgs, data: &mut ProcData, kmem: &mut Kmem, files: &mut Files) -> (r: Result<
    u64,
    SysError,
>)
    requires
        callable(*old(files), *old(data), *old(kmem)),
        call_state(old(files)@, *old(data), old(kmem)@).sys_open(
            old(data).size as int,
            *args,
        ) is Some,
    ensures
        callable(*final(files), *final(data), *final(kmem)),
        called(*old(data), old(kmem)@, *final(data), final(kmem)@),
        Some((call_state(final(files)@, *final(data), final(kmem)@), r)) == call_state(
            old(files)@,
            *old(data),
            old(kmem)@,
        ).sys_open(old(data).size as int, *args),
{
    let mode = args.get_raw(1);
    let path = match fetch_string(data, kmem, args.get_addr(0), MAXPATH) {
        Ok(s) => s,
        Err(e) => {
            return Err(e);
        },
    };
    let cwd = data.cwd;
    open_path(files, &mut data.open_files, &Path::new(&path), &cwd, mode)
}

/// Makes a directory or a device at the path that the first argument gives.
fn sys_make(
    args: &SyscallArgs,
    data: &mut ProcData,
    kmem: &mut Kmem,
    files: &mut Files,
    typ: InodeType,
    major: u16,
    minor: u16,
) -> (r: Result<u64, SysError>)
    requires
        callable(*old(files), *old(data), *old(kmem)),
        call_state(old(files)@, *old(data), old(kmem)@).sys_make(
            old(data).size as int,
            *args,
            typ,
            major,
            minor,
        ) is Some,
    ensures
        callable(*final(files), *final(data), *final(kmem)),
        called(*old(data), old(kmem)@, *final(data), final(kmem)@),
        Some((call_state(final(files)@, *final(data), final(kmem)@), r)) == call_state(
            old(files)@,
            *old(data),
            old(kmem)@,
        ).sys_make(old(data).size as int, *args, typ, major, minor),
{
    files.fs.begin_op();
    let cwd = data.cwd;
    let r = match fetch_string(data, kmem, args.get_addr(0), MAXPATH) {
        Ok(path) => make_node(&mut files.fs, &Path::new(&path), &cwd, typ, major, minor),
        Err(e) => Err(e),
    };
    files.fs.end_op();
    assert(files@.pipes =~= old(files)@.pipes);
    r
}

pub fn sys_mkdir(args: &SyscallArgs, data: &mut ProcData, kmem: &mut Kmem, files: &mut Files) -> (r: Result<
    u64,
    SysError,
>)
    requires
        callable(*old(files), *old(data), *old(kmem)),
        call_state(old(files)@, *old(data), old(kmem)@).sys_make(
            old(data).size as int,
            *args,
            InodeType::Directory,
            0,
            0,
        ) is Some,
    ensures
        callable(*final(files), *final(data), *final(kmem)),
        called(*old(data), old(kmem)@, *final(data), final(kmem)@),
        Some((call_state(final(files)@, *final(data), final(kmem)@), r)) == call_state(
            old(files)@,
            *old(data),
            old(kmem)@,
        ).sys_make(old(data).size as int, *args, InodeType::Directory, 0, 0),
{
    sys_make(args, data, kmem, files, InodeType::Directory, 0, 0)
}

pub fn sys_mknod(args: &SyscallArgs, data: &mut ProcData, kmem: &mut Kmem, files: &mut Files) -> (r: Result<
    u64,
    SysError,
>)
    requires
        callable(*old(files), *old(data), *old(kmem)),
        call_state(old(files)@, *old(data), old(kmem)@).sys_make(
            old(data).size as int,
            *args,
            InodeType::Device,
            args.arg(1) as u16,
            args.arg(2) as u16,
        ) is Some,
    ensures
        callable(*final(files), *final(data), *final(kmem)),
        called(*old(data), old(kmem)@, *final(data), final(kmem)@),
        Some((call_state(final(files)@, *final(data), final(kmem)@), r)) == call_state(
            old(files)@,
            *old(data),
            old(kmem)@,
        ).sys_make(
            old(data).size as int,
            *args,
            InodeType::Device,
            args.arg(1) as u16,
            args.arg(2) as u16,
        ),
{
    let major = args.get_raw(1) as u16;
    let minor = args.get_raw(2) as u16;
    sys_make(args, data, kmem, files, InodeType::Device, major, minor)
}

pub fn sys_chdir(args: &SyscallArgs, data: &mut ProcData, kmem: &mut Kmem, files: &mut Files) -> (r: Result<
    u64,
    SysError,
>)
    requires
        callable(*old(files), *old(data), *old(kmem)),
        call_state(old(files)@, *old(data), old(kmem)@).sys_chdir(
            old(data).size as int,
            *args,
        ) is Some,
    ensures
        callable(*final(files), *final(data), *final(kmem)),
        called(*old(data), old(kmem)@, *final(data), final(kmem)@),
        Some((call_state(final(files)@, *final(data), final(kmem)@), r)) == call_state(
            old(files)@,
            *old(data),
            old(kmem)@,
        ).sys_chdir(old(data).size as int, *args),
{
    files.fs.begin_op();
    let r = match fetch_string(data, kmem, args.get_addr(0), MAXPATH) {
        Ok(path) => chdir(&mut files.fs, &Path::new(&path), &mut data.cwd),
        Err(e) => Err(e),
    };
    files.fs.end_op();
    assert(files@.pipes =~= old(files)@.pipes);
    r
}

} // verus!
