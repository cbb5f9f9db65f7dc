//! What the calls on files mean for the process that makes them.
use vstd::prelude::*;
use crate::abi::SysError;
use crate::console::laws::{law_write_is_shown, unreadable};
use crate::file::laws::{is_file, law_read_file, law_write_file, written};
use crate::file::{File, FileInner, FileType, FilesState, TableState, CONSOLE};
use crate::fs::inode::{InodeData, InodeType, Stat};
use crate::fs::laws::{bytes_of, mapped};
use crate::fs::table::FsState;
use crate::fs::{Inode, MAXFILE};
use crate::le::{lemma_u16_at, lemma_u32_at, u16_at, u16_bytes, u32_at, u32_bytes, u64_at, u64_bytes};
use crate::param::{MAXARG, NDEV, NFILE, NINODE, NOFILE};
use crate::pipe::{law_pipe_read, law_pipe_write_appends, PipeState, Progress, PIPESIZE};
use crate::proc::Channel;
use crate::riscv::PGSIZE;
use crate::syscall::{char_bytes, SyscallArgs};
use crate::sysfile::calls::CallState;
use crate::sysfile::pipes::{piped, with_ends};
use crate::sysfile::{fd_given, law_lowest_descriptor, opened_file};
use crate::virtio_disk::BSIZE;
use crate::vm::bytes::{law_copy_from_bytes, law_copy_to_bytes};
use crate::vm::usermem::UserMem;

verus! {

/// The descriptor that the first argument of a call gives stands for the file `file`.
pub open spec fn names_file(c: CallState, args: SyscallArgs, file: File) -> bool {
    let fd = args.arg(0) as i64;
    &&& 0 <= fd < NOFILE
    &&& c.open.len() == NOFILE
    &&& c.open[fd as int] == Some(file)
    &&& file.id < NFILE
    &&& c.files.table.inner.len() == NFILE
    &&& c.files.table.holder.len() == NFILE
}

/// A call with a descriptor that stands for no file does nothing.
pub proof fn law_bad_descriptor(c: CallState, size: int, args: SyscallArgs, pid: u64, killed: bool, done: u64)
    requires
        c.open.len() == NOFILE,
        ({
            let fd = args.arg(0) as i64;
            fd < 0 || fd >= NOFILE || c.open[fd as int] is None
        }),
    ensures
        c.sys_read(size, args, pid, killed, done) == Some(
            (
                c,
                Progress::Done(Err::<u64, SysError>(SysError::BadDescriptor)),
                None::<Channel>,
            ),
        ),
        c.sys_write(size, args, pid, killed, done) == Some(
            (
                c,
                Progress::Done(Err::<u64, SysError>(SysError::BadDescriptor)),
                None::<Channel>,
            ),
        ),
        c.sys_dup(args) == Some((c, Err::<u64, SysError>(SysError::BadDescriptor))),
        c.sys_fstat(size, args, pid) == Some(
            (c, Progress::Done(Err::<u64, SysError>(SysError::BadDescriptor))),
        ),
{
}

/// Writing to a file on disk: the call returns the number of bytes that it was asked for if all of
/// them were written, and then those of the process from the given address on are those of the file
/// from its offset on. A file that was not opened for writing is not written.
pub proof fn law_write_call(
    c: CallState,
    size: int,
    args: SyscallArgs,
    pid: u64,
    killed: bool,
    done: u64,
    file: File,
    inode: Inode,
    d: InodeData,
)
    requires
        names_file(c, args, file),
        c.files.table.inner[file.id as int].typ == (FileType::Inode { inode }),
        c.files.table.holder[file.id as int] is None,
        is_file(c.files.fs, inode, d),
        c.files.table.inner[file.id as int].offset <= d.size,
        c.mem.whole(),
        c.sys_write(size, args, pid, killed, done) is Some,
    ensures
        ({
            let (t, p, wake) = c.sys_write(size, args, pid, killed, done)->0;
            let f = c.files.table.inner[file.id as int];
            let g = t.files.table.inner[file.id as int];
            let e = (t.files.fs.lock(inode)->0).1;
            let addr = args.arg(1) as int;
            let n = args.arg(2);
            let k = g.offset - f.offset;
            &&& t.open == c.open && t.cwd == c.cwd
            &&& wake is None
            &&& !f.writeable ==> p == Progress::Done(
                Err::<u64, SysError>(SysError::BadDescriptor),
            ) && t.mem == c.mem && t.files.fs == c.files.fs
            &&& f.writeable ==> {
                &&& c.mem.same_bytes(t.mem)
                &&& is_file(t.files.fs, inode, e)
                &&& 0 <= k <= n
                &&& t.mem.shows(addr, t.mem.bytes_at(addr, k))
                &&& written(
                    c.files.fs,
                    d,
                    t.files.fs,
                    e,
                    inode.dev,
                    f.offset as int,
                    t.mem.bytes_at(addr, k),
                )
                &&& p == (if k == n {
                    Progress::Done(Ok(n))
                } else {
                    Progress::Done(Err(SysError::IoError))
                })
                &&& k < n ==> f.offset + n > MAXFILE * BSIZE
            }
        }),
{
    let id = file.id as int;
    if c.files.table.inner[id].writeable {
        law_write_file(
            c.files,
            c.mem,
            size,
            pid,
            id,
            inode,
            d,
            args.arg(1) as int,
            args.arg(2),
        );
    }
}

/// Reading from a file on disk: the process gets the bytes of the file from its offset on at the
/// given address, as many as it asked for and there are. A file that was not opened for reading is
/// not read.
pub proof fn law_read_call(
    c: CallState,
    size: int,
    args: SyscallArgs,
    pid: u64,
    killed: bool,
    done: u64,
    file: File,
    inode: Inode,
    d: InodeData,
)
    requires
        names_file(c, args, file),
        c.files.table.inner[file.id as int].typ == (FileType::Inode { inode }),
        c.files.table.holder[file.id as int] is None,
        is_file(c.files.fs, inode, d),
        d.size <= MAXFILE * BSIZE,
        mapped(c.files.fs.store, inode.dev, d, 0, (d.size + BSIZE - 1) / (BSIZE as int)),
        c.files.table.inner[file.id as int].offset <= d.size,
        c.files.table.inner[file.id as int].offset + args.arg(2) <= u32::MAX,
        c.mem.whole(),
        c.sys_read(size, args, pid, killed, done) is Some,
    ensures
        ({
            let (t, p, wake) = c.sys_read(size, args, pid, killed, done)->0;
            let f = c.files.table.inner[file.id as int];
            let g = t.files.table.inner[file.id as int];
            let addr = args.arg(1) as int;
            let end = if f.offset + args.arg(2) > d.size {
                d.size as int
            } else {
                f.offset + args.arg(2)
            };
            let bytes = bytes_of(c.files.fs.store, inode.dev, d, f.offset as int, end);
            &&& t.open == c.open && t.cwd == c.cwd
            &&& t.files.fs.store == c.files.fs.store
            &&& !f.readable ==> p == Progress::Done(
                Err::<u64, SysError>(SysError::BadDescriptor),
            ) && t.mem == c.mem
            &&& f.readable ==> match p {
                Progress::Done(Ok(k)) => {
                    &&& k == end - f.offset
                    &&& g == (FileInner { offset: end as u32, ..f })
                    &&& t.mem.shows(addr, bytes)
                    &&& c.mem.only_within(t.mem, addr, addr + bytes.len())
                },
                Progress::Done(Err(x)) => x == SysError::IoError && g == f,
                Progress::Sleep(_, _) => false,
            }
        }),
{
    let id = file.id as int;
    if c.files.table.inner[id].readable {
        law_read_file(
            c.files,
            c.mem,
            size,
            pid,
            id,
            inode,
            d,
            args.arg(1) as int,
            args.arg(2),
        );
    }
}

/// Writing to a pipe: what was written is at the end of what is in the pipe, in order, and those who
/// wait to read it are woken up.
pub proof fn law_write_pipe_call(
    c: CallState,
    size: int,
    args: SyscallArgs,
    pid: u64,
    killed: bool,
    file: File,
    pipe: u64,
)
    requires
        names_file(c, args, file),
        c.files.table.inner[file.id as int].typ == (FileType::Pipe { pipe }),
        c.files.table.inner[file.id as int].writeable,
        c.files.table.holder[file.id as int] is None,
        c.files.pipes.contains_key(pipe),
        c.files.pipes[pipe].queue.len() <= PIPESIZE,
        c.mem.whole(),
        c.sys_write(size, args, pid, killed, 0) is Some,
    ensures
        ({
            let (t, p, wake) = c.sys_write(size, args, pid, killed, 0)->0;
            let old_queue = c.files.pipes[pipe].queue;
            let queue = t.files.pipes[pipe].queue;
            let addr = args.arg(1) as int;
            let added = queue.len() - old_queue.len();
            &&& queue.take(old_queue.len() as int) == old_queue
            &&& t.mem.shows(addr, queue.skip(old_queue.len() as int))
            &&& c.mem.same_bytes(t.mem)
            &&& match p {
                Progress::Done(Ok(k)) => k == added && (k < args.arg(2) ==> !t.mem.can_read(
                    addr + k,
                )) && k <= args.arg(2) && wake == Some(Channel::PipeRead(pipe)),
                Progress::Sleep(k, ch) => k == added && queue.len() == PIPESIZE && ch
                    == Channel::PipeWrite(pipe) && wake == Some(Channel::PipeRead(pipe)),
                Progress::Done(Err(e)) => added == 0 && (killed
                    || !c.files.pipes[pipe].read_open),
            }
            &&& forall|q: u64| q != pipe ==> #[trigger] t.files.pipes[q] == c.files.pipes[q]
        }),
{
    law_pipe_write_appends(
        c.files.pipes[pipe],
        c.mem,
        size,
        args.arg(1) as int,
        args.arg(2) as int,
        0,
        killed,
        pipe,
    );
}

/// Reading from a pipe: the process gets what has been in it for longest, and those who wait to write
/// are woken up. It waits only while the pipe is empty and can be written.
pub proof fn law_read_pipe_call(
    c: CallState,
    size: int,
    args: SyscallArgs,
    pid: u64,
    killed: bool,
    file: File,
    pipe: u64,
)
    requires
        names_file(c, args, file),
        c.files.table.inner[file.id as int].typ == (FileType::Pipe { pipe }),
        c.files.table.inner[file.id as int].readable,
        c.files.table.holder[file.id as int] is None,
        c.files.pipes.contains_key(pipe),
        c.mem.whole(),
        c.sys_read(size, args, pid, killed, 0) is Some,
    ensures
        ({
            let (t, p, wake) = c.sys_read(size, args, pid, killed, 0)->0;
            let old_queue = c.files.pipes[pipe].queue;
            let queue = t.files.pipes[pipe].queue;
            let n = args.arg(2) as int;
            let k = if n < old_queue.len() {
                n
            } else {
                old_queue.len() as int
            };
            match p {
                Progress::Done(Ok(x)) => {
                    &&& x == k
                    &&& queue == old_queue.skip(k)
                    &&& t.mem.shows(args.arg(1) as int, old_queue.take(k))
                    &&& wake == Some(Channel::PipeWrite(pipe))
                    &&& k == 0 ==> n == 0 || !c.files.pipes[pipe].write_open
                },
                Progress::Sleep(x, ch) => x == 0 && ch == Channel::PipeRead(pipe)
                    && old_queue.len() == 0 && c.files.pipes[pipe].write_open && !killed && t.mem
                    == c.mem && queue == old_queue,
                Progress::Done(Err(e)) => e == SysError::BadAddress || (e
                    == SysError::Interrupted && killed && old_queue.len() == 0),
            }
        }),
{
    law_pipe_read(
        c.files.pipes[pipe],
        c.mem,
        size,
        args.arg(1) as int,
        args.arg(2) as int,
        killed,
        pipe,
    );
}

/// Writing to the console shows the bytes of the process, in order, all of them unless one cannot be
/// read.
pub proof fn law_write_console_call(
    c: CallState,
    size: int,
    args: SyscallArgs,
    pid: u64,
    killed: bool,
    done: u64,
    file: File,
    inode: Inode,
)
    requires
        names_file(c, args, file),
        c.files.table.inner[file.id as int].typ == (FileType::Device { inode, major: CONSOLE }),
        c.files.table.inner[file.id as int].writeable,
        c.files.table.holder[file.id as int] is None,
        c.mem.whole(),
        c.sys_write(size, args, pid, killed, done) is Some,
    ensures
        ({
            let (t, p, wake) = c.sys_write(size, args, pid, killed, done)->0;
            let out = t.files.console.out;
            let old_out = c.files.console.out;
            let addr = args.arg(1) as int;
            &&& p matches Progress::Done(Ok(k))
            &&& k == out.len() - old_out.len()
            &&& k <= args.arg(2)
            &&& out.take(old_out.len() as int) == old_out
            &&& t.mem.shows(addr, out.skip(old_out.len() as int))
            &&& c.mem.same_bytes(t.mem)
            &&& k < args.arg(2) ==> exists|a: int|
                addr + k <= a < addr + args.arg(2) && !#[trigger] t.mem.can_read(a)
        }),
{
    law_write_is_shown(
        c.files.console,
        c.mem,
        size,
        args.arg(1) as int,
        args.arg(2) as int,
        0,
    );
    reveal(unreadable);
}

/// A second descriptor for a file: the lowest that was free, for the same file, which has one more.
pub proof fn law_dup_call(c: CallState, args: SyscallArgs, file: File)
    requires
        names_file(c, args, file),
        c.files.table.refs.len() == NFILE,
        c.sys_dup(args) is Some,
    ensures
        ({
            let (t, r) = c.sys_dup(args)->0;
            let id = file.id as int;
            match r {
                Ok(fd) => {
                    &&& fd < NOFILE
                    &&& c.open[fd as int] is None
                    &&& forall|j: int| 0 <= j < fd ==> #[trigger] c.open[j] is Some
                    &&& t.open[fd as int] == Some(file)
                    &&& forall|j: int| 0 <= j < NOFILE && j != fd ==> #[trigger] t.open[j] == c.open[j]
                    &&& t.files.table.refs[id] == c.files.table.refs[id] + 1
                    &&& t.files.table.inner == c.files.table.inner
                },
                Err(e) => t == c && e == SysError::TooManyFiles && forall|j: int|
                    0 <= j < NOFILE ==> #[trigger] c.open[j] is Some,
            }
        }),
{
    law_lowest_descriptor(c.open, file);
}

/// What a file can be used for is what it was opened for, and it starts at its first byte.
pub proof fn law_open_mode(f: FileInner, ino: Inode, d: InodeData, mode: u64)
    ensures
        ({
            let g = opened_file(f, ino, d, mode);
            &&& mode % 4 == 0 ==> g.readable && !g.writeable
            &&& mode % 4 == 1 ==> !g.readable && g.writeable
            &&& mode % 4 == 2 ==> g.readable && g.writeable
            &&& d.typ != InodeType::Device ==> g.offset == 0 && g.typ == (FileType::Inode {
                inode: ino,
            })
            &&& d.typ == InodeType::Device ==> g.typ == (FileType::Device {
                inode: ino,
                major: d.major,
            })
        }),
{
    assert({
        &&& mode % 4 == 0 ==> mode & 1 == 0 && mode & 2 == 0
        &&& mode % 4 == 1 ==> mode & 1 != 0
        &&& mode % 4 == 2 ==> mode & 1 == 0 && mode & 2 != 0
    }) by (bit_vector);
}

/// Opening a file makes a new entry of the file table, with a descriptor for it, the lowest that was
/// free. The file is emptied if that was asked for, and only then.
pub proof fn law_open_file(c: FilesState, open: Seq<Option<File>>, ino: Inode, d: InodeData, mode: u64)
    requires
        open.len() == NOFILE,
        c.table.refs.len() == NFILE,
        c.table.inner.len() == NFILE,
        c.open_file(open, ino, d, mode) is Some,
    ensures
        ({
            let (t, new, r) = c.open_file(open, ino, d, mode)->0;
            match r {
                Ok(fd) => {
                    let id = new[fd as int]->0.id as int;
                    &&& fd < NOFILE
                    &&& open[fd as int] is None
                    &&& forall|j: int| 0 <= j < fd ==> #[trigger] open[j] is Some
                    &&& new[fd as int] is Some
                    &&& forall|j: int| 0 <= j < NOFILE && j != fd ==> #[trigger] new[j] == open[j]
                    &&& 0 <= id < NFILE
                    &&& c.table.refs[id] == 0 && t.table.refs[id] == 1
                    &&& t.table.inner[id] == opened_file(c.table.inner[id], ino, d, mode)
                    &&& forall|j: int|
                        0 <= j < NFILE && j != id ==> #[trigger] t.table.inner[j]
                            == c.table.inner[j] && t.table.refs[j] == c.table.refs[j]
                    &&& Some(t.fs) == c.fs.opened(ino, d, mode)
                    &&& t.pipes == c.pipes && t.console == c.console
                },
                Err(_) => new == open,
            }
        }),
{
    lemma_first_free(c.table, 0);
    law_lowest_descriptor(open, (c.table.allocated().1)->Ok_0);
}

proof fn lemma_first_free(t: TableState, i: int)
    requires
        0 <= i <= NFILE,
    ensures
        i <= t.first_free(i) <= NFILE,
        t.first_free(i) < NFILE ==> t.refs[t.first_free(i)] == 0,
    decreases NFILE - i,
{
    if i < NFILE && t.refs[i] != 0 {
        lemma_first_free(t, i + 1);
    }
}

/// A file that is opened to be emptied has no bytes then; one that is not stays as it is. A directory
/// or a device is never emptied.
pub proof fn law_open_truncates(s: FsState, ino: Inode, d: InodeData, mode: u64)
    requires
        s.inner.len() == NINODE,
        s.locked.len() == NINODE,
        d.valid,
        s.opened(ino, d, mode) is Some,
    ensures
        ({
            let t = s.opened(ino, d, mode)->0;
            let e = (t.lock(ino)->0).1;
            let emptied = (mode / 0x400) % 2 == 1 && d.typ == InodeType::File;
            &&& t.lock(ino) is Some
            &&& emptied ==> e.size == 0 && Some((t.store, e)) == s.store.trunc_inode(
                s.sb,
                ino.dev,
                ino.inum,
                d,
            )
            &&& !emptied ==> e == d && t.store == s.store
        }),
{
    reveal(FsState::lock);
    assert((mode & 0x400 != 0) == ((mode / 0x400) % 2 == 1)) by (bit_vector);
}

/// What a process learns about a file: its device, its number, its type, how many names it has and
/// how many bytes, where they are laid out for it.
pub proof fn law_stat(s: FilesState, m: UserMem, size: int, pid: u64, id: int, inode: Inode, d: InodeData, addr: int)
    requires
        m.whole(),
        0 <= addr,
        s.fs.lock(inode) matches Some((_, x)) && x == d,
        s.stat_inode(m, size, pid, id, inode, addr) is Some,
    ensures
        ({
            let (t, m1, p) = s.stat_inode(m, size, pid, id, inode, addr)->0;
            &&& m.only_within(m1, addr, addr + 24)
            &&& t.fs.store == s.fs.store
            &&& match p {
                Progress::Done(Ok(r)) => {
                    let b = m1.bytes_at(addr, 24);
                    &&& r == 0
                    &&& m1.shows(addr, b)
                    &&& u32_at(b, 0) == inode.dev
                    &&& u32_at(b, 4) == inode.inum
                    &&& u16_at(b, 8) == d.typ.code()
                    &&& u16_at(b, 10) == d.nlink
                    &&& b.subrange(16, 24) == u64_bytes(d.size as u64)
                },
                Progress::Done(Err(e)) => e == SysError::BadAddress,
                Progress::Sleep(_, _) => false,
            }
        }),
{
    reveal(FsState::lock);
    let stat = Stat {
        dev: inode.dev,
        ino: inode.inum,
        typ: d.typ,
        nlink: d.nlink,
        size: d.size as u64,
    };
    let b = stat.bytes();
    assert(b.len() == 24);
    law_copy_to_bytes(m, size, addr, b);
    let (m1, r) = m.copy_to(size, addr, b)->0;
    if r is Ok {
        m1.lemma_bytes_at(addr, b);
        assert(b.subrange(0, 4) =~= u32_bytes(stat.dev));
        assert(b.subrange(4, 8) =~= u32_bytes(stat.ino));
        assert(b.subrange(8, 10) =~= u16_bytes(stat.typ.code()));
        assert(b.subrange(10, 12) =~= u16_bytes(stat.nlink));
        assert(b.subrange(16, 24) =~= u64_bytes(stat.size));
        lemma_u32_at(b, 0, stat.dev);
        lemma_u32_at(b, 4, stat.ino);
        lemma_u16_at(b, 8, stat.typ.code());
        lemma_u16_at(b, 10, stat.nlink);
    }
}

/// The text that bytes stand for, each being the number of a character.
pub open spec fn text(b: Seq<u8>) -> Seq<u8>
    decreases b.len(),
{
    if b.len() == 0 {
        seq![]
    } else {
        text(b.drop_last()) + char_bytes(b.last())
    }
}

/// The bytes from `addr` on are `b`, none of them zero, and behind them is a zero byte unless they are
/// as many as can be.
pub open spec fn string_at(m: UserMem, addr: int, b: Seq<u8>, max: int) -> bool {
    &&& m.shows(addr, b)
    &&& b.len() <= max
    &&& forall|j: int| 0 <= j < b.len() ==> #[trigger] b[j] != 0
    &&& b.len() < max ==> m.at(addr + b.len()) && m.byte(addr + b.len()) == 0
}

/// `s` is `acc` and then the text of the string `b` at `addr`.
pub open spec fn fetched(m: UserMem, addr: int, max: int, acc: Seq<u8>, s: Seq<u8>, b: Seq<u8>) -> bool {
    &&& string_at(m, addr, b, max)
    &&& s == acc + text(b)
}

/// What came of fetching a string from `addr`: the one that is there, or an error. No byte changes.
pub open spec fn fetches(
    m: UserMem,
    addr: int,
    max: int,
    acc: Seq<u8>,
    m1: UserMem,
    r: Result<Seq<u8>, SysError>,
) -> bool {
    &&& m.same_bytes(m1)
    &&& m1.whole()
    &&& r is Ok ==> exists|b: Seq<u8>| #[trigger] fetched(m1, addr, max, acc, r->Ok_0, b)
    &&& r is Err ==> r->Err_0 == SysError::BadAddress
}

proof fn lemma_fetches(
    m: UserMem,
    addr: int,
    max: int,
    acc: Seq<u8>,
    m1: UserMem,
    s: Seq<u8>,
    b: Seq<u8>,
)
    requires
        m.same_bytes(m1),
        m1.whole(),
        string_at(m1, addr, b, max),
        s == acc + text(b),
    ensures
        fetches(m, addr, max, acc, m1, Ok(s)),
{
    let r: Result<Seq<u8>, SysError> = Ok(s);
    assert(fetched(m1, addr, max, acc, r->Ok_0, b));
    assert(exists|b: Seq<u8>| #[trigger] fetched(m1, addr, max, acc, r->Ok_0, b));
    assert(fetches(m, addr, max, acc, m1, r));
}

/// A string that is fetched from a process is the one that is there, up to its zero byte.
pub proof fn law_fetch(m: UserMem, size: int, addr: int, max: int, i: int, acc: Seq<u8>)
    requires
        m.whole(),
        0 <= addr,
        0 <= i <= max,
        m.fetch(size, addr, max, i, acc) is Some,
    ensures
        ({
            let (m1, r) = m.fetch(size, addr, max, i, acc)->0;
            fetches(m, addr + i, max - i, acc, m1, r)
        }),
    decreases max - i,
{
    assert(m.same_bytes(m));
    let none: Seq<u8> = seq![];
    assert(text(none) =~= none);
    assert(acc + text(none) =~= acc);
    if i >= max {
        assert(m.fetch(size, addr, max, i, acc) == Some((m, Ok::<Seq<u8>, SysError>(acc))));
        lemma_fetches(m, addr + i, max - i, acc, m, acc, none);
    } else {
        law_copy_from_bytes(m, size, addr + i, 1, seq![]);
        let (m1, r1) = m.copy_from(size, addr + i, 1, seq![])->0;
        if let Ok(one) = r1 {
            assert(one.skip(0) =~= one);
            assert(m1.shows_one(addr + i, one, 0));
            if one[0] == 0 {
                assert(addr + i + 0 == addr + i);
                assert(m.fetch(size, addr, max, i, acc) == Some((m1, Ok::<Seq<u8>, SysError>(acc))));
                lemma_fetches(m, addr + i, max - i, acc, m1, acc, none);
            } else {
                let acc1 = acc + char_bytes(one[0]);
                assert(m.fetch(size, addr, max, i, acc) == m1.fetch(size, addr, max, i + 1, acc1));
                law_fetch(m1, size, addr, max, i + 1, acc1);
                let (m2, r) = m.fetch(size, addr, max, i, acc)->0;
                m.lemma_same_trans(m1, m2);
                if let Ok(s) = r {
                    let b = choose|b: Seq<u8>| #[trigger]
                        fetched(m2, addr + (i + 1), max - (i + 1), acc1, s, b);
                    assert(fetched(m2, addr + (i + 1), max - (i + 1), acc1, s, b));
                    let all = one + b;
                    m1.lemma_same_shows(m2, addr + i, one);
                    m2.lemma_shows_both(addr + i, one, b);
                    assert(addr + i + all.len() == addr + (i + 1) + b.len());
                    assert(string_at(m2, addr + i, all, max - i));
                    lemma_text_both(one, b);
                    assert(one =~= seq![one[0]]);
                    assert(text(one) =~= char_bytes(one[0])) by {
                        assert(one.drop_last() =~= seq![]);
                        assert(text(one.drop_last()) =~= seq![]);
                    }
                    assert(s =~= acc + text(all));
                    lemma_fetches(m, addr + i, max - i, acc, m2, s, all);
                }
            }
        } else {
            assert(m.fetch(size, addr, max, i, acc) == Some(
                (m1, Err::<Seq<u8>, SysError>(SysError::BadAddress)),
            ));
        }
    }
}

proof fn lemma_text_both(a: Seq<u8>, b: Seq<u8>)
    ensures
        text(a + b) == text(a) + text(b),
    decreases b.len(),
{
    if b.len() == 0 {
        assert(a + b =~= a);
        assert(text(a) + text(b) =~= text(a));
    } else {
        lemma_text_both(a, b.drop_last());
        assert((a + b).drop_last() =~= a + b.drop_last());
        assert(text(a) + (text(b.drop_last()) + char_bytes(b.last())) =~= text(a) + text(
            b.drop_last(),
        ) + char_bytes(b.last()));
    }
}

/// Plain text is what it stands for.
pub proof fn law_plain_text(b: Seq<u8>)
    requires
        forall|j: int| 0 <= j < b.len() ==> #[trigger] b[j] < 0x80,
    ensures
        text(b) == b,
    decreases b.len(),
{
    if b.len() > 0 {
        law_plain_text(b.drop_last());
        assert(b.drop_last() + seq![b.last()] =~= b);
    } else {
        assert(text(b) =~= b);
    }
}

/// The address that stands at `a`.
pub open spec fn pointer_at(m: UserMem, a: int) -> u64 {
    u64_at(m.bytes_at(a, 8), 0)
}

/// The `q`th address of the array at `uargv` leads to the string `arg`.
pub open spec fn arg_given(m: UserMem, uargv: int, q: int, arg: Seq<u8>) -> bool {
    let p = pointer_at(m, uargv + 8 * q);
    &&& m.shows(uargv + 8 * q, m.bytes_at(uargv + 8 * q, 8))
    &&& p != 0
    &&& exists|b: Seq<u8>| #[trigger] string_at(m, p as int, b, PGSIZE as int) && arg == text(b)
}

/// Where no byte is changed the same arguments are given.
proof fn lemma_arg_kept(m: UserMem, m1: UserMem, uargv: int, q: int, arg: Seq<u8>)
    requires
        m.same_bytes(m1),
        arg_given(m, uargv, q, arg),
    ensures
        arg_given(m1, uargv, q, arg),
        pointer_at(m1, uargv + 8 * q) == pointer_at(m, uargv + 8 * q),
{
    let a = uargv + 8 * q;
    let p = pointer_at(m, a);
    let bytes = m.bytes_at(a, 8);
    m.lemma_same_shows(m1, a, bytes);
    m1.lemma_bytes_at(a, bytes);
    let b = choose|b: Seq<u8>| #[trigger]
        string_at(m, p as int, b, PGSIZE as int) && arg == text(b);
    m.lemma_same_shows(m1, p as int, b);
    if b.len() < PGSIZE {
        assert(m.pages.contains_key((p + b.len()) / (PGSIZE as int)));
    }
    assert(string_at(m1, p as int, b, PGSIZE as int));
}

/// The arguments of a program are the strings to which the array of the process leads, in order, up to
/// the address zero.
pub proof fn law_fetch_args(m: UserMem, size: int, uargv: int, i: int, acc: Seq<Seq<u8>>)
    requires
        m.whole(),
        0 <= uargv,
        0 <= i <= MAXARG,
        acc.len() == i,
        forall|q: int| 0 <= q < i ==> #[trigger] arg_given(m, uargv, q, acc[q]),
        m.fetch_args(size, uargv, i, acc) is Some,
    ensures
        ({
            let (m1, r) = m.fetch_args(size, uargv, i, acc)->0;
            &&& m.same_bytes(m1)
            &&& m1.whole()
            &&& match r {
                Ok(argv) => {
                    &&& argv.len() <= MAXARG
                    &&& forall|q: int|
                        0 <= q < argv.len() ==> #[trigger] arg_given(m1, uargv, q, argv[q])
                    &&& argv.len() < MAXARG ==> pointer_at(m1, uargv + 8 * argv.len()) == 0
                },
                Err(e) => e == SysError::BadAddress,
            }
        }),
    decreases MAXARG - i,
{
    assert(m.same_bytes(m));
    if i < MAXARG {
        let a = uargv + 8 * i;
        assert(a == uargv + i * 8);
        law_copy_from_bytes(m, size, a, 8, seq![]);
        let (m1, r1) = m.copy_from(size, a, 8, seq![])->0;
        if let Ok(bytes) = r1 {
            assert(bytes.skip(0) =~= bytes);
            m1.lemma_bytes_at(a, bytes);
            let p = u64_at(bytes, 0);
            assert forall|q: int| 0 <= q < i implies #[trigger] arg_given(m1, uargv, q, acc[q]) by {
                lemma_arg_kept(m, m1, uargv, q, acc[q]);
            }
            if p != 0 {
                law_fetch(m1, size, p as int, PGSIZE as int, 0, seq![]);
                let (m2, r2) = m1.fetch(size, p as int, PGSIZE as int, 0, seq![])->0;
                if let Ok(arg) = r2 {
                    let none: Seq<u8> = seq![];
                    let b = choose|b: Seq<u8>| #[trigger]
                        fetched(m2, p as int + 0, PGSIZE - 0, none, arg, b);
                    assert(fetched(m2, p as int + 0, PGSIZE - 0, none, arg, b));
                    assert(none + text(b) =~= text(b));
                    assert(string_at(m2, p as int, b, PGSIZE as int));
                    m1.lemma_same_shows(m2, a, bytes);
                    m2.lemma_bytes_at(a, bytes);
                    let next = acc.push(arg);
                    assert forall|q: int| 0 <= q < i + 1 implies #[trigger] arg_given(
                        m2,
                        uargv,
                        q,
                        next[q],
                    ) by {
                        if q < i {
                            lemma_arg_kept(m1, m2, uargv, q, acc[q]);
                        }
                    }
                    law_fetch_args(m2, size, uargv, i + 1, next);
                    let (m3, _) = m.fetch_args(size, uargv, i, acc)->0;
                    m.lemma_same_trans(m1, m2);
                    m.lemma_same_trans(m2, m3);
                } else {
                    m.lemma_same_trans(m1, m2);
                }
            }
        }
    }
}

/// `a` is the end for reading and `b` the end for writing of the pipe `p`, which is new.
pub open spec fn are_ends(t: FilesState, p: u64, a: File, b: File) -> bool {
    let read = t.table.inner[a.id as int];
    let write = t.table.inner[b.id as int];
    &&& a != b
    &&& read.typ == (FileType::Pipe { pipe: p })
    &&& write.typ == (FileType::Pipe { pipe: p })
    &&& read.readable && !read.writeable
    &&& write.writeable && !write.readable
    &&& t.pipes[p] == (PipeState { queue: seq![], read_open: true, write_open: true })
}

/// The descriptors `fd0` and `fd1` are new, stand for `a` and `b`, and are at `addr`.
pub open spec fn told_ends(
    open: Seq<Option<File>>,
    new: Seq<Option<File>>,
    m: UserMem,
    addr: int,
    a: File,
    b: File,
    fd0: u64,
    fd1: u64,
) -> bool {
    &&& fd0 < fd1 < NOFILE
    &&& open[fd0 as int] is None && open[fd1 as int] is None
    &&& new[fd0 as int] == Some(a) && new[fd1 as int] == Some(b)
    &&& m.shows(addr, u64_bytes(fd0))
    &&& m.shows(addr + 8, u64_bytes(fd1))
    &&& forall|j: int|
        0 <= j < NOFILE && j != fd0 && j != fd1 ==> #[trigger] new[j] == open[j]
}

proof fn lemma_ends(s: FilesState, p: u64)
    requires
        s.table.refs.len() == NFILE,
        s.table.inner.len() == NFILE,
        s.table.allocated().1 is Ok,
        s.table.allocated().0.allocated().1 is Ok,
    ensures
        ({
            let (s1, a, b) = with_ends(s, p);
            are_ends(s1, p, a, b)
        }),
{
    let t0 = s.table.allocated().0;
    lemma_first_free(s.table, 0);
    lemma_first_free(t0, 0);
    let (s1, a, b) = with_ends(s, p);
    assert(t0.refs[a.id as int] == 1);
}

/// A new pipe is empty, and the process has at `addr` a descriptor for reading it and then one for
/// writing it.
pub proof fn law_new_pipe(
    s: FilesState,
    m: UserMem,
    open: Seq<Option<File>>,
    p: u64,
    size: int,
    addr: u64,
)
    requires
        m.whole(),
        open.len() == NOFILE,
        s.table.refs.len() == NFILE,
        s.table.inner.len() == NFILE,
        s.table.allocated().1 is Ok,
        s.table.allocated().0.allocated().1 is Ok,
        ({
            let (s1, a, b) = with_ends(s, p);
            piped(s1, m, open, a, b, size, addr) matches Some((_, _, _, Ok(_)))
        }),
    ensures
        ({
            let (s1, a, b) = with_ends(s, p);
            let (t, m1, new, r) = piped(s1, m, open, a, b, size, addr)->0;
            &&& are_ends(t, p, a, b)
            &&& exists|fd0: u64, fd1: u64| #[trigger]
                told_ends(open, new, m1, addr as int, a, b, fd0, fd1)
        }),
{
    let (s1, a, b) = with_ends(s, p);
    lemma_ends(s, p);
    lemma_told(s1, m, open, a, b, size, addr);
}

proof fn lemma_told(
    s: FilesState,
    m: UserMem,
    open: Seq<Option<File>>,
    a: File,
    b: File,
    size: int,
    addr: u64,
)
    requires
        m.whole(),
        open.len() == NOFILE,
        piped(s, m, open, a, b, size, addr) matches Some((_, _, _, Ok(_))),
    ensures
        ({
            let (t, m1, new, r) = piped(s, m, open, a, b, size, addr)->0;
            &&& t == s
            &&& exists|fd0: u64, fd1: u64| #[trigger]
                told_ends(open, new, m1, addr as int, a, b, fd0, fd1)
        }),
{
    let (t, m1, new, r) = piped(s, m, open, a, b, size, addr)->0;
    law_lowest_descriptor(open, a);
    let (open1, r0) = fd_given(open, a);
    law_lowest_descriptor(open1, b);
    let (open2, r1) = fd_given(open1, b);
    let fd0 = r0->Ok_0;
    let fd1 = r1->Ok_0;
    assert(open1[fd0 as int] is Some);
    law_copy_to_bytes(m, size, addr as int, u64_bytes(fd0));
    let (m2, _) = m.copy_to(size, addr as int, u64_bytes(fd0))->0;
    law_copy_to_bytes(m2, size, addr + 8, u64_bytes(fd1));
    assert(u64_bytes(fd0).len() == 8 && u64_bytes(fd1).len() == 8);
    m2.lemma_still_shows(m1, addr as int, u64_bytes(fd0), addr + 8, addr + 16);
    if fd1 < fd0 {
        assert(open1[fd1 as int] == open[fd1 as int]);
    }
    assert(told_ends(open, new, m1, addr as int, a, b, fd0, fd1));
}

/// Closing the last descriptor for an end of a pipe closes that end and no other, and wakes up who
/// waits at the other one. With the second end the pipe is gone. While there are other descriptors
/// nothing is closed.
pub proof fn law_close_pipe(s: FilesState, id: int, pipe: u64)
    requires
        s.table.refs.len() == NFILE,
        s.table.inner.len() == NFILE,
        s.table.inner[id].typ == (FileType::Pipe { pipe }),
        s.pipes.contains_key(pipe),
        s.close(id) is Some,
    ensures
        ({
            let (t, c) = s.close(id)->0;
            let p = s.pipes[pipe];
            let writes = s.table.inner[id].writeable;
            &&& t.table.refs[id] == s.table.refs[id] - 1
            &&& forall|j: int|
                0 <= j < NFILE && j != id ==> #[trigger] t.table.refs[j] == s.table.refs[j]
            &&& t.fs == s.fs && t.console == s.console
            &&& if s.table.refs[id] > 1 {
                t.pipes == s.pipes && c.wake is None && c.freed is None
            } else {
                &&& t.table.inner[id].typ == FileType::Unused
                &&& c.wake == Some(
                    if writes {
                        Channel::PipeRead(pipe)
                    } else {
                        Channel::PipeWrite(pipe)
                    },
                )
                &&& if (writes && p.read_open) || (!writes && p.write_open) {
                    &&& c.freed is None
                    &&& t.pipes.contains_key(pipe)
                    &&& t.pipes[pipe].queue == p.queue
                    &&& t.pipes[pipe].write_open == (p.write_open && !writes)
                    &&& t.pipes[pipe].read_open == (p.read_open && writes)
                } else {
                    c.freed == Some(pipe) && !t.pipes.contains_key(pipe)
                }
            }
            &&& forall|q: u64|
                q != pipe ==> #[trigger] t.pipes.contains_key(q) == s.pipes.contains_key(q)
            &&& forall|q: u64| q != pipe ==> #[trigger] t.pipes[q] == s.pipes[q]
        }),
{
}

/// Changing the directory: it becomes the one that the path names, and only a directory can be one. If
/// that is an error the directory stays.
pub proof fn law_chdir(s: FsState, path: Seq<u8>, cwd: Inode)
    requires
        s.chdir(path, cwd) is Some,
    ensures
        ({
            let (t, dir, r) = s.chdir(path, cwd)->0;
            match s.resolve(path, cwd, false)->0 {
                (u, Err(_)) => dir == cwd && r == Err::<u64, SysError>(SysError::NoEntry),
                (u, Ok((ino, _))) => {
                    let d = (u.lock(ino)->0).1;
                    &&& d.typ == InodeType::Directory ==> dir == ino && r == Ok::<u64, SysError>(0)
                    &&& d.typ != InodeType::Directory ==> dir == cwd && r == Err::<u64, SysError>(
                        SysError::NotDirectory,
                    )
                },
            }
        }),
{
}

/// Opening what is there: a directory can only be read, a device must be one that there can be, and a
/// path that leads nowhere is an error.
pub proof fn law_open_existing(s: FsState, path: Seq<u8>, cwd: Inode, mode: u64)
    requires
        (mode / 0x200) % 2 == 0,
        s.open_inode(path, cwd, mode) is Some,
    ensures
        ({
            let (t, r) = s.open_inode(path, cwd, mode)->0;
            match s.resolve(path, cwd, false)->0 {
                (u, Err(_)) => r == Err::<(Inode, InodeData), SysError>(SysError::NoEntry),
                (u, Ok((ino, _))) => {
                    let d = (u.lock(ino)->0).1;
                    if d.typ == InodeType::Directory && mode != 0 {
                        r == Err::<(Inode, InodeData), SysError>(SysError::IsDirectory)
                    } else if d.typ == InodeType::Device && d.major >= NDEV {
                        r == Err::<(Inode, InodeData), SysError>(SysError::NoEntry)
                    } else {
                        r == Ok::<(Inode, InodeData), SysError>((ino, d)) && Some((t, d)) == u.lock(
                            ino,
                        )
                    }
                },
            }
        }),
{
    assert((mode & 0x200 != 0) == ((mode / 0x200) % 2 == 1)) by (bit_vector);
}

} // verus!
