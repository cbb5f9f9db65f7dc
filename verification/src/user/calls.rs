//! System calls, as programs make them: what is passed, and what is made of the reply.
use vstd::prelude::*;
use crate::abi::SysError;
use crate::param::MAXPATH;

verus! {

/// A file descriptor returned by or passed to syscalls.
#[derive(Debug, Clone, Copy, PartialEq, Eq, Structural)]
pub struct Fd(pub u64);

impl Fd {
    pub const STDIN: u64 = 0;

    pub const STDOUT: u64 = 1;

    pub const STDERR: u64 = 2;

    /// Returns the raw file descriptor number.
    pub fn as_raw(&self) -> (r: u64)
        ensures
            r == self.0,
    {
        self.0
    }
}

/// Converts a raw syscall return into `Result`, treating negative values as error codes.
pub fn check(ret: u64) -> (r: Result<u64, SysError>)
    ensures
        r == SysError::decode(ret),
{
    SysError::decode_result(ret)
}

/// What is left of a result whose number does not matter.
pub open spec fn unit(r: Result<u64, SysError>) -> Result<(), SysError> {
    match r {
        Ok(_) => Ok(()),
        Err(e) => Err(e),
    }
}

/// Converts a raw syscall return into `Result<(), SysError>`.
pub fn check_unit(ret: u64) -> (r: Result<(), SysError>)
    ensures
        r == unit(SysError::decode(ret)),
{
    match check(ret) {
        Ok(_) => Ok(()),
        Err(e) => Err(e),
    }
}

/// A path that can be passed to syscalls: it is shorter than `MAXPATH` and holds no zero byte.
pub open spec fn path_ok(path: Seq<u8>) -> bool {
    path.len() < MAXPATH && !path.contains(0)
}

/// Checks a path and makes the buffer that is passed: the path, and zeros behind it.
pub fn validate_path(path: &[u8]) -> (r: Result<Vec<u8>, SysError>)
    ensures
        match r {
            Ok(buf) => {
                &&& path_ok(path@)
                &&& buf@ == path@ + Seq::new((MAXPATH - path@.len()) as nat, |i: int| 0u8)
            },
            Err(e) => !path_ok(path@) && e == SysError::NameTooLong,
        },
{
    if path.len() >= MAXPATH {
        return Err(SysError::NameTooLong);
    }
    let mut buf: Vec<u8> = Vec::new();
    let mut i: usize = 0;
    while i < path.len()
        invariant
            i <= path@.len(),
            buf@ == path@.take(i as int),
            forall|j: int| 0 <= j < i ==> #[trigger] path@[j] != 0,
        decreases path@.len() - i,
    {
        let b = path[i];
        if b == 0 {
            assert(path@.contains(0)) by {
                assert(path@[i as int] == 0);
            }
            return Err(SysError::NameTooLong);
        }
        buf.push(b);
        i += 1;
        assert(buf@ =~= path@.take(i as int));
    }
    assert(path@.take(i as int) =~= path@);
    while buf.len() < MAXPATH
        invariant
            path@.len() <= buf@.len() <= MAXPATH,
            buf@ == path@ + Seq::new((buf@.len() - path@.len()) as nat, |i: int| 0u8),
        decreases MAXPATH - buf@.len(),
    {
        buf.push(0);
        assert(buf@ =~= path@ + Seq::new((buf@.len() - path@.len()) as nat, |i: int| 0u8));
    }
    Ok(buf)
}

/// The most arguments that are passed to a program
pub const MAX_ARGV: usize = 16;

/// The room for the arguments of a program
pub const BUF_SIZE: usize = 512;

/// Where the arguments start in the buffer, one after the other with a zero byte behind each.
pub open spec fn offset_of(argv: Seq<Seq<u8>>, i: int) -> int
    decreases i,
{
    if i <= 0 {
        0
    } else {
        offset_of(argv, i - 1) + argv[i - 1].len() + 1
    }
}

/// The arguments one after the other, with a zero byte behind each.
pub open spec fn packed(argv: Seq<Seq<u8>>, n: int) -> Seq<u8>
    decreases n,
{
    if n <= 0 {
        seq![]
    } else {
        packed(argv, n - 1) + argv[n - 1].push(0)
    }
}

/// How many arguments are passed.
pub open spec fn passed(argv: Seq<Seq<u8>>) -> int {
    if argv.len() < MAX_ARGV {
        argv.len() as int
    } else {
        MAX_ARGV as int
    }
}

/// What is passed to `exec`: the path, the arguments, and where each of them starts.
#[derive(Debug)]
pub struct Packed {
    pub path: Vec<u8>,
    pub buf: Vec<u8>,
    pub starts: Vec<u64>,
}

/// Packs the path and the arguments of a program to execute. Arguments beyond the first
/// `MAX_ARGV` are not passed.
pub fn exec(path: &[u8], argv: &Vec<Vec<u8>>) -> (r: Result<Packed, SysError>)
    requires
        ({
            let vs = argv@.map_values(|v: Vec<u8>| v@);
            offset_of(vs, passed(vs)) <= BUF_SIZE
        }),
    ensures
        ({
            let vs = argv@.map_values(|v: Vec<u8>| v@);
            match r {
                Ok(p) => {
                    &&& path_ok(path@)
                    &&& p.path@ == path@ + Seq::new((MAXPATH - path@.len()) as nat, |i: int| 0u8)
                    &&& p.buf@ == packed(vs, passed(vs))
                    &&& p.starts@.len() == passed(vs)
                    &&& forall|i: int|
                        0 <= i < passed(vs) ==> #[trigger] p.starts@[i] == offset_of(vs, i)
                },
                Err(e) => !path_ok(path@) && e == SysError::NameTooLong,
            }
        }),
{
    let cpath = match validate_path(path) {
        Ok(cpath) => cpath,
        Err(e) => {
            return Err(e);
        },
    };
    let ghost vs = argv@.map_values(|v: Vec<u8>| v@);
    let n: usize = if argv.len() < MAX_ARGV {
        argv.len()
    } else {
        MAX_ARGV
    };
    let mut buf: Vec<u8> = Vec::new();
    let mut starts: Vec<u64> = Vec::new();
    let mut i: usize = 0;
    while i < n
        invariant
            i <= n,
            n <= argv@.len(),
            n == passed(vs),
            vs == argv@.map_values(|v: Vec<u8>| v@),
            buf@ == packed(vs, i as int),
            buf@.len() == offset_of(vs, i as int),
            starts@.len() == i,
            forall|j: int| 0 <= j < i ==> #[trigger] starts@[j] == offset_of(vs, j),
        decreases n - i,
    {
        starts.push(buf.len() as u64);
        let ghost before = buf@;
        buf.extend_from_slice(argv[i].as_slice());
        buf.push(0);
        assert(buf@ =~= before + vs[i as int].push(0));
        i += 1;
    }
    Ok(Packed { path: cpath, buf, starts })
}

/// Where the pipe's ends are, as the kernel filled them in.
pub fn pipe(ret: u64, fds: (u64, u64)) -> (r: Result<(Fd, Fd), SysError>)
    ensures
        r == match SysError::decode(ret) {
            Ok(_) => Ok::<(Fd, Fd), SysError>((Fd(fds.0), Fd(fds.1))),
            Err(e) => Err(e),
        },
{
    match check_unit(ret) {
        Ok(()) => Ok((Fd(fds.0), Fd(fds.1))),
        Err(e) => Err(e),
    }
}

/// What `fork` makes of the reply.
pub fn fork(ret: u64) -> (r: Result<u64, SysError>)
    ensures
        r == SysError::decode(ret),
{
    check(ret)
}

/// What `wait` makes of the reply.
pub fn wait(ret: u64) -> (r: Result<u64, SysError>)
    ensures
        r == SysError::decode(ret),
{
    check(ret)
}

/// What `read` makes of the reply.
pub fn read(ret: u64) -> (r: Result<u64, SysError>)
    ensures
        r == SysError::decode(ret),
{
    check(ret)
}

/// What `write` makes of the reply.
pub fn write(ret: u64) -> (r: Result<u64, SysError>)
    ensures
        r == SysError::decode(ret),
{
    check(ret)
}

/// What `sbrk` makes of the reply.
pub fn sbrk(ret: u64) -> (r: Result<u64, SysError>)
    ensures
        r == SysError::decode(ret),
{
    check(ret)
}

/// What `ioctl` makes of the reply.
pub fn ioctl(ret: u64) -> (r: Result<u64, SysError>)
    ensures
        r == SysError::decode(ret),
{
    check(ret)
}

/// What `kill` makes of the reply.
pub fn kill(ret: u64) -> (r: Result<(), SysError>)
    ensures
        r == unit(SysError::decode(ret)),
{
    check_unit(ret)
}

/// What `chdir` makes of the reply.
pub fn chdir(ret: u64) -> (r: Result<(), SysError>)
    ensures
        r == unit(SysError::decode(ret)),
{
    check_unit(ret)
}

/// What `sleep` makes of the reply.
pub fn sleep(ret: u64) -> (r: Result<(), SysError>)
    ensures
        r == unit(SysError::decode(ret)),
{
    check_unit(ret)
}

/// What `close` makes of the reply.
pub fn close(ret: u64) -> (r: Result<(), SysError>)
    ensures
        r == unit(SysError::decode(ret)),
{
    check_unit(ret)
}

/// What `mknod` makes of the reply.
pub fn mknod(ret: u64) -> (r: Result<(), SysError>)
    ensures
        r == unit(SysError::decode(ret)),
{
    check_unit(ret)
}

/// What `unlink` makes of the reply.
pub fn unlink(ret: u64) -> (r: Result<(), SysError>)
    ensures
        r == unit(SysError::decode(ret)),
{
    check_unit(ret)
}

/// What `link` makes of the reply.
pub fn link(ret: u64) -> (r: Result<(), SysError>)
    ensures
        r == unit(SysError::decode(ret)),
{
    check_unit(ret)
}

/// What `mkdir` makes of the reply.
pub fn mkdir(ret: u64) -> (r: Result<(), SysError>)
    ensures
        r == unit(SysError::decode(ret)),
{
    check_unit(ret)
}

/// What `mprotect` makes of the reply.
pub fn mprotect(ret: u64) -> (r: Result<(), SysError>)
    ensures
        r == unit(SysError::decode(ret)),
{
    check_unit(ret)
}

/// What `munprotect` makes of the reply.
pub fn munprotect(ret: u64) -> (r: Result<(), SysError>)
    ensures
        r == unit(SysError::decode(ret)),
{
    check_unit(ret)
}

/// What `fstat` makes of the reply.
pub fn fstat(ret: u64) -> (r: Result<(), SysError>)
    ensures
        r == unit(SysError::decode(ret)),
{
    check_unit(ret)
}

/// What `dup` makes of the reply.
pub fn dup(ret: u64) -> (r: Result<Fd, SysError>)
    ensures
        r == match SysError::decode(ret) {
            Ok(fd) => Ok::<Fd, SysError>(Fd(fd)),
            Err(e) => Err(e),
        },
{
    match check(ret) {
        Ok(fd) => Ok(Fd(fd)),
        Err(e) => Err(e),
    }
}

/// What `open` makes of the reply.
pub fn open(ret: u64) -> (r: Result<Fd, SysError>)
    ensures
        r == match SysError::decode(ret) {
            Ok(fd) => Ok::<Fd, SysError>(Fd(fd)),
            Err(e) => Err(e),
        },
{
    match check(ret) {
        Ok(fd) => Ok(Fd(fd)),
        Err(e) => Err(e),
    }
}

/// What `getpid` makes of the reply, which is never an error.
pub fn getpid(ret: u64) -> (r: u64)
    ensures
        r == ret,
{
    ret
}

/// What `uptime` makes of the reply, which is never an error.
pub fn uptime(ret: u64) -> (r: u64)
    ensures
        r == ret,
{
    ret
}

/// What `getusedmem` makes of the reply, which is never an error.
pub fn getusedmem(ret: u64) -> (r: u64)
    ensures
        r == ret,
{
    ret
}

/// The arguments that are passed stand one after the other: each where it is said to start, with a zero
/// byte behind it.
pub proof fn law_packed(argv: Seq<Seq<u8>>, n: int, i: int)
    requires
        0 <= i < n,
    ensures
        packed(argv, n).len() == offset_of(argv, n),
        0 <= offset_of(argv, i),
        offset_of(argv, i) + argv[i].len() + 1 <= offset_of(argv, n),
        packed(argv, n).subrange(offset_of(argv, i), offset_of(argv, i) + argv[i].len()) == argv[i],
        packed(argv, n)[offset_of(argv, i) + argv[i].len()] == 0,
    decreases n,
{
    let last = argv[n - 1].push(0);
    lemma_packed_len(argv, n - 1);
    assert(packed(argv, n) == packed(argv, n - 1) + last);
    if i < n - 1 {
        law_packed(argv, n - 1, i);
        assert(packed(argv, n).subrange(offset_of(argv, i), offset_of(argv, i) + argv[i].len())
            =~= packed(argv, n - 1).subrange(
            offset_of(argv, i),
            offset_of(argv, i) + argv[i].len(),
        ));
    } else {
        assert(packed(argv, n).subrange(offset_of(argv, i), offset_of(argv, i) + argv[i].len())
            =~= argv[i]);
    }
}

proof fn lemma_packed_len(argv: Seq<Seq<u8>>, n: int)
    requires
        0 <= n,
    ensures
        packed(argv, n).len() == offset_of(argv, n),
    decreases n,
{
    if n > 0 {
        lemma_packed_len(argv, n - 1);
    }
}

} // verus!
