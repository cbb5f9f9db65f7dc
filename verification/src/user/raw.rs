//! The registers of a system call, as a program sets them.
use vstd::prelude::*;
use crate::abi::Syscall;

verus! {

/// What the registers hold when a program makes a system call.
#[derive(Debug, Clone, Copy, PartialEq, Eq, Structural)]
pub struct Request {
    /// The number of the call
    pub a7: u64,
    pub a0: u64,
    pub a1: u64,
    pub a2: u64,
}

impl Request {
    /// The registers of a call. Those that it does not use do not matter.
    pub open spec fn of(sys: Syscall, a0: u64, a1: u64, a2: u64) -> Request {
        Request { a7: sys.number(), a0, a1, a2 }
    }

    fn new(sys: Syscall, a0: u64, a1: u64, a2: u64) -> (r: Self)
        ensures
            r == Self::of(sys, a0, a1, a2),
    {
        Request { a7: sys.to_u64(), a0, a1, a2 }
    }
}

pub fn fork() -> (r: Request)
    ensures
        r == Request::of(Syscall::Fork, 0, 0, 0),
{
    Request::new(Syscall::Fork, 0, 0, 0)
}

pub fn exit(code: u64) -> (r: Request)
    ensures
        r == Request::of(Syscall::Exit, code, 0, 0),
{
    Request::new(Syscall::Exit, code, 0, 0)
}

pub fn wait(status: u64) -> (r: Request)
    ensures
        r == Request::of(Syscall::Wait, status, 0, 0),
{
    Request::new(Syscall::Wait, status, 0, 0)
}

pub fn pipe(fds: u64) -> (r: Request)
    ensures
        r == Request::of(Syscall::Pipe, fds, 0, 0),
{
    Request::new(Syscall::Pipe, fds, 0, 0)
}

pub fn read(fd: u64, buf: u64, len: u64) -> (r: Request)
    ensures
        r == Request::of(Syscall::Read, fd, buf, len),
{
    Request::new(Syscall::Read, fd, buf, len)
}

pub fn write(fd: u64, buf: u64, len: u64) -> (r: Request)
    ensures
        r == Request::of(Syscall::Write, fd, buf, len),
{
    Request::new(Syscall::Write, fd, buf, len)
}

pub fn kill(pid: u64) -> (r: Request)
    ensures
        r == Request::of(Syscall::Kill, pid, 0, 0),
{
    Request::new(Syscall::Kill, pid, 0, 0)
}

pub fn exec(path: u64, argv: u64) -> (r: Request)
    ensures
        r == Request::of(Syscall::Exec, path, argv, 0),
{
    Request::new(Syscall::Exec, path, argv, 0)
}

pub fn fstat(fd: u64, stat: u64) -> (r: Request)
    ensures
        r == Request::of(Syscall::Fstat, fd, stat, 0),
{
    Request::new(Syscall::Fstat, fd, stat, 0)
}

pub fn chdir(path: u64) -> (r: Request)
    ensures
        r == Request::of(Syscall::Chdir, path, 0, 0),
{
    Request::new(Syscall::Chdir, path, 0, 0)
}

pub fn dup(fd: u64) -> (r: Request)
    ensures
        r == Request::of(Syscall::Dup, fd, 0, 0),
{
    Request::new(Syscall::Dup, fd, 0, 0)
}

pub fn getpid() -> (r: Request)
    ensures
        r == Request::of(Syscall::Getpid, 0, 0, 0),
{
    Request::new(Syscall::Getpid, 0, 0, 0)
}

pub fn sbrk(n: u64) -> (r: Request)
    ensures
        r == Request::of(Syscall::Sbrk, n, 0, 0),
{
    Request::new(Syscall::Sbrk, n, 0, 0)
}

pub fn sleep(ticks: u64) -> (r: Request)
    ensures
        r == Request::of(Syscall::Sleep, ticks, 0, 0),
{
    Request::new(Syscall::Sleep, ticks, 0, 0)
}

pub fn uptime() -> (r: Request)
    ensures
        r == Request::of(Syscall::Uptime, 0, 0, 0),
{
    Request::new(Syscall::Uptime, 0, 0, 0)
}

pub fn open(path: u64, flags: u64) -> (r: Request)
    ensures
        r == Request::of(Syscall::Open, path, flags, 0),
{
    Request::new(Syscall::Open, path, flags, 0)
}

pub fn close(fd: u64) -> (r: Request)
    ensures
        r == Request::of(Syscall::Close, fd, 0, 0),
{
    Request::new(Syscall::Close, fd, 0, 0)
}

pub fn mknod(path: u64, major: u64, minor: u64) -> (r: Request)
    ensures
        r == Request::of(Syscall::Mknod, path, major, minor),
{
    Request::new(Syscall::Mknod, path, major, minor)
}

pub fn unlink(path: u64) -> (r: Request)
    ensures
        r == Request::of(Syscall::Unlink, path, 0, 0),
{
    Request::new(Syscall::Unlink, path, 0, 0)
}

pub fn link(from: u64, to: u64) -> (r: Request)
    ensures
        r == Request::of(Syscall::Link, from, to, 0),
{
    Request::new(Syscall::Link, from, to, 0)
}

pub fn mkdir(path: u64) -> (r: Request)
    ensures
        r == Request::of(Syscall::Mkdir, path, 0, 0),
{
    Request::new(Syscall::Mkdir, path, 0, 0)
}

pub fn poweroff(code: u64) -> (r: Request)
    ensures
        r == Request::of(Syscall::Poweroff, code, 0, 0),
{
    Request::new(Syscall::Poweroff, code, 0, 0)
}

pub fn ioctl(fd: u64, cmd: u64, arg: u64) -> (r: Request)
    ensures
        r == Request::of(Syscall::Ioctl, fd, cmd, arg),
{
    Request::new(Syscall::Ioctl, fd, cmd, arg)
}

pub fn getusedmem() -> (r: Request)
    ensures
        r == Request::of(Syscall::Getusedmem, 0, 0, 0),
{
    Request::new(Syscall::Getusedmem, 0, 0, 0)
}

pub fn mprotect(addr: u64) -> (r: Request)
    ensures
        r == Request::of(Syscall::Mprotect, addr, 0, 0),
{
    Request::new(Syscall::Mprotect, addr, 0, 0)
}

pub fn munprotect(addr: u64) -> (r: Request)
    ensures
        r == Request::of(Syscall::Munprotect, addr, 0, 0),
{
    Request::new(Syscall::Munprotect, addr, 0, 0)
}

} // verus!
