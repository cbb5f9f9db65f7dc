//! System calls on processes.
use vstd::prelude::*;
use crate::abi::SysError;
use crate::error::KernelError;
use crate::file::Files;
use crate::kalloc::{Kmem, KmemState};
use crate::pipe::Progress;
use crate::proc::exit::{can_exit, exit, exited};
use crate::proc::fork::{can_fork, fork, forked, grow};
use crate::proc::life::Code;
use crate::proc::table::{stricken, ProcTable};
use crate::proc::wait::{can_wait, wait, waited, Waited};
use crate::proc::{Channel, Pid, ProcData};
use crate::param::NPROC;
use crate::riscv::PGSIZE;
use crate::sync::OnceLock;
use crate::syscall::SyscallArgs;
use crate::vm::kvm::Kvm;
use crate::vm::usermem::UPAGES;
use crate::vm::{UserMem, VmError, VA};

verus! {

/// Exits process `id` with the status that the argument gives.
pub fn sys_exit(args: &SyscallArgs, procs: &mut ProcTable, kmem: &mut Kmem, files: &mut Files, id: usize)
    requires
        old(kmem).wf(),
        old(files).wf(),
        can_exit(*old(procs), old(kmem)@, old(files)@, id),
    ensures
        final(procs).wf(),
        final(kmem).wf(),
        final(files).wf(),
        exited(
            *old(procs),
            old(kmem)@,
            old(files)@,
            id,
            args.arg(0) as i64,
            *final(procs),
            final(kmem)@,
            final(files)@,
        ),
{
    let n = args.get_int(0);
    exit(procs, kmem, files, id, n);
}

/// Returns the PID of process `id`.
pub fn sys_getpid(procs: &ProcTable, id: usize) -> (r: Result<u64, SysError>)
    requires
        procs.wf(),
        id < NPROC,
    ensures
        r == Ok::<u64, SysError>(procs.table@[id as int].inner.pid.0),
{
    Ok(procs.table[id].inner.pid.0)
}

/// What the result of forking is for the parent.
pub open spec fn fork_result(r: Result<Pid, KernelError>) -> Result<u64, SysError> {
    match r {
        Ok(pid) => Ok(pid.0),
        Err(_) => Err(SysError::ResourceUnavailable),
    }
}

/// Forks process `id`.
pub fn sys_fork(procs: &mut ProcTable, kmem: &mut Kmem, files: &mut Files, id: usize, code: Code) -> (r: Result<
    u64,
    SysError,
>)
    requires
        old(kmem).wf(),
        old(files).wf(),
        can_fork(*old(procs), old(kmem)@, old(files)@, id, code),
    ensures
        final(procs).wf(),
        final(kmem).wf(),
        final(files).wf(),
        exists|f: Result<Pid, KernelError>|
            r == fork_result(f) && #[trigger] forked(
                *old(procs),
                old(kmem)@,
                old(files)@,
                id,
                code,
                *final(procs),
                final(kmem)@,
                final(files)@,
                f,
            ),
{
    let f = fork(procs, kmem, files, id, code);
    assert(forked(*old(procs), old(kmem)@, old(files)@, id, code, *procs, kmem@, files@, f));
    match f {
        Ok(pid) => Ok(pid.0),
        Err(_) => Err(SysError::ResourceUnavailable),
    }
}

/// What the result of waiting is for the parent.
pub open spec fn wait_result(w: Waited) -> Progress {
    match w {
        Waited::Exited(pid) => Progress::Done(Ok(pid.0)),
        Waited::Nobody => Progress::Done(Err(SysError::NoChildren)),
        Waited::Sleep(c) => Progress::Sleep(0, c),
    }
}

/// Waits for a child of process `id` to exit.
pub fn sys_wait(args: &SyscallArgs, procs: &mut ProcTable, kmem: &mut Kmem, id: usize) -> (r: Progress)
    requires
        old(kmem).wf(),
        can_wait(*old(procs), old(kmem)@, id, VA(args.arg(0))),
    ensures
        final(procs).wf(),
        final(kmem).wf(),
        exists|w: Waited|
            r == wait_result(w) && #[trigger] waited(
                *old(procs),
                old(kmem)@,
                id,
                VA(args.arg(0)),
                *final(procs),
                final(kmem)@,
                w,
            ),
{
    let addr = args.get_addr(0);
    let w = wait(procs, kmem, id, addr);
    assert(waited(*old(procs), old(kmem)@, id, addr, *procs, kmem@, w));
    match w {
        Waited::Exited(pid) => Progress::Done(Ok(pid.0)),
        Waited::Nobody => Progress::Done(Err(SysError::NoChildren)),
        Waited::Sleep(c) => Progress::Sleep(0, c),
    }
}

impl UserMem {
    /// Growing or shrinking a process of `size` by `n` bytes; growing is done when the memory is
    /// used. The result is the old size.
    pub open spec fn sbrk(self, size: u64, n: i64) -> Option<(UserMem, u64, Result<u64, SysError>)> {
        match self.resize(size, n, n >= 0) {
            None => None,
            Some((m, s, Ok(_))) => Some((m, s, Ok(size))),
            Some((m, s, Err(_))) => Some((m, s, Err(SysError::OutOfMemory))),
        }
    }
}

/// Grows or shrinks the memory of a process.
pub fn sys_sbrk(args: &SyscallArgs, data: &mut ProcData, kmem: &mut Kmem) -> (r: Result<u64, SysError>)
    requires
        old(kmem).wf(),
        old(data).ready(old(kmem)@),
        old(data).mem(old(kmem)@).sbrk(old(data).size, args.arg(0) as i64) is Some,
    ensures
        final(kmem).wf(),
        Some((final(data).mem(final(kmem)@), final(data).size, r)) == old(data).mem(
            old(kmem)@,
        ).sbrk(old(data).size, args.arg(0) as i64),
        (ProcData { size: final(data).size, ..*old(data) }).touched(
            old(kmem)@,
            *final(data),
            final(kmem)@,
        ),
        old(data).settled(old(kmem)@) ==> final(data).settled(final(kmem)@),
{
    let n = args.get_int(0);
    let addr = data.size;
    match grow(data, kmem, n, n >= 0) {
        Ok(_) => Ok(addr),
        Err(_) => Err(SysError::OutOfMemory),
    }
}

/// What sleeping for `duration` ticks does at `now`: `started` is 0 at first, and then one more
/// than the tick at which it began.
pub open spec fn slept(duration: i64, now: u64, started: u64, killed: bool) -> Progress {
    let first = if started == 0 {
        now as int
    } else {
        started - 1
    };
    if now - first >= duration {
        Progress::Done(Ok(0))
    } else if killed {
        Progress::Done(Err(SysError::Interrupted))
    } else {
        Progress::Sleep((first + 1) as u64, Channel::Ticks)
    }
}

/// Sleeps for a number of ticks.
pub fn sys_sleep(args: &SyscallArgs, now: u64, started: u64, killed: bool) -> (r: Progress)
    requires
        now < u64::MAX,
        started <= now + 1,
    ensures
        r == slept(args.arg(0) as i64, now, started, killed),
{
    let n = args.get_int(0);
    let duration: u64 = if n < 0 {
        0
    } else {
        n as u64
    };
    let first: u64 = if started == 0 {
        now
    } else {
        started - 1
    };
    if now - first >= duration {
        return Progress::Done(Ok(0));
    }
    if killed {
        return Progress::Done(Err(SysError::Interrupted));
    }
    Progress::Sleep(first + 1, Channel::Ticks)
}

/// Killing the process with the given PID.
pub open spec fn struck(p0: ProcTable, pid: Pid, p1: ProcTable, r: Result<u64, SysError>) -> bool {
    &&& p0.same_but_inner(p1)
    &&& r == (if exists|i: int| p0.is_pid(i, pid) {
        Ok::<u64, SysError>(0)
    } else {
        Err(SysError::NoProcess)
    })
    &&& forall|i: int|
        0 <= i < NPROC ==> (#[trigger] p1.table@[i]).inner == (if p0.is_pid(i, pid) && forall|j: int|
            0 <= j < i ==> !p0.is_pid(j, pid) {
            stricken(p0.table@[i].inner)
        } else {
            p0.table@[i].inner
        })
}

/// Kills a process.
pub fn sys_kill(args: &SyscallArgs, procs: &mut ProcTable) -> (r: Result<u64, SysError>)
    requires
        old(procs).wf(),
    ensures
        final(procs).wf(),
        struck(*old(procs), Pid(args.arg(0)), *final(procs), r),
{
    if procs.kill(Pid::from_u64(args.get_raw(0))) {
        Ok(0)
    } else {
        Err(SysError::NoProcess)
    }
}

/// Returns the number of ticks since the system started.
pub fn sys_uptime(ticks: u64) -> (r: Result<u64, SysError>)
    ensures
        r == Ok::<u64, SysError>(ticks),
{
    Ok(ticks)
}

/// The number of bytes that the kernel's page table maps.
pub open spec fn used_memory(kvm: Option<Kvm>, k: KmemState) -> Result<u64, SysError> {
    match kvm {
        Some(kvm) => Ok((kvm.0.used_below(k, 0x800_0000) * PGSIZE) as u64),
        None => Err(SysError::ResourceUnavailable),
    }
}

/// Returns how much memory is in use.
pub fn sys_getusedmem(kvm: &OnceLock<Kvm>, kmem: &Kmem) -> (r: Result<u64, SysError>)
    requires
        kmem.wf(),
        kvm.value() matches Some(v) ==> v.0.wf(kmem@),
    ensures
        r == used_memory(kvm.value(), kmem@),
{
    match kvm.get() {
        Some(kvm) => Ok(kvm.get().walk_used(kmem) * PGSIZE),
        None => Err(SysError::ResourceUnavailable),
    }
}

impl UserMem {
    /// Permitting or forbidding to write a page.
    pub open spec fn protect(self, va: int, writable: bool) -> Option<
        (UserMem, Result<u64, SysError>),
    > {
        match self.set_writeable(va, writable) {
            None => None,
            Some((m, Ok(()))) => Some((m, Ok(0))),
            Some((m, Err(e))) => Some(
                (
                    m,
                    Err(
                        if e == VmError::InvalidAddress {
                            SysError::InvalidArgument
                        } else {
                            SysError::BadAddress
                        },
                    ),
                ),
            ),
        }
    }
}

/// Permits or forbids to write the page at the address that the argument gives.
pub fn set_page_writeable(args: &SyscallArgs, data: &mut ProcData, kmem: &mut Kmem, writable: bool) -> (r: Result<
    u64,
    SysError,
>)
    requires
        old(kmem).wf(),
        old(data).ready(old(kmem)@),
        old(data).mem(old(kmem)@).protect(args.arg(0) as int, writable) is Some,
    ensures
        final(kmem).wf(),
        *final(data) == *old(data),
        final(data).ready(final(kmem)@),
        Some((final(data).mem(final(kmem)@), r)) == old(data).mem(old(kmem)@).protect(
            args.arg(0) as int,
            writable,
        ),
        !writable ==> old(data).touched(old(kmem)@, *final(data), final(kmem)@),
        old(data).pagetable->0.tables_only(old(kmem)@, final(kmem)@),
        old(data).pagetable->0.same_reserved(
            old(kmem)@,
            final(data).pagetable->0,
            final(kmem)@,
        ),
        old(data).settled(old(kmem)@) ==> final(data).settled(final(kmem)@),
{
    let va = args.get_addr(0);
    let ghost d0 = *data;
    let ghost k0 = kmem@;
    let r = match data.pagetable_mut().set_page_writeable(kmem, va, writable) {
        Ok(()) => Ok(0),
        Err(VmError::InvalidAddress) => Err(SysError::InvalidArgument),
        Err(_) => Err(SysError::BadAddress),
    };
    proof {
        if d0.settled(k0) {
            let pa = d0.trapframe->0.pa;
            let u = d0.pagetable->0;
            assert(u.owns(kmem@, pa) == u.owns(k0, pa));
            let a = d0.mem(k0);
            let b = d0.mem(kmem@);
            assert forall|n: int| #[trigger] b.pages.contains_key(n) implies a.pages.contains_key(n) && (
            n >= UPAGES ==> b.pages[n] == a.pages[n]) by {
                if n >= UPAGES {
                    assert(u.pte(kmem@, n) == u.pte(k0, n));
                }
            }
            assert(u.pte(kmem@, UPAGES as int) == u.pte(k0, UPAGES as int));
            assert(a.pages.contains_key(UPAGES as int));
            assert(b.pages.contains_key(UPAGES as int));
        }
    }
    r
}

/// Forbids to write a page.
pub fn sys_mprotect(args: &SyscallArgs, data: &mut ProcData, kmem: &mut Kmem) -> (r: Result<
    u64,
    SysError,
>)
    requires
        old(kmem).wf(),
        old(data).ready(old(kmem)@),
        old(data).mem(old(kmem)@).protect(args.arg(0) as int, false) is Some,
    ensures
        final(kmem).wf(),
        *final(data) == *old(data),
        Some((final(data).mem(final(kmem)@), r)) == old(data).mem(old(kmem)@).protect(
            args.arg(0) as int,
            false,
        ),
        old(data).touched(old(kmem)@, *final(data), final(kmem)@),
        old(data).settled(old(kmem)@) ==> final(data).settled(final(kmem)@),
{
    set_page_writeable(args, data, kmem, false)
}

/// Permits to write a page.
pub fn sys_munprotect(args: &SyscallArgs, data: &mut ProcData, kmem: &mut Kmem) -> (r: Result<
    u64,
    SysError,
>)
    requires
        old(kmem).wf(),
        old(data).ready(old(kmem)@),
        old(data).mem(old(kmem)@).protect(args.arg(0) as int, true) is Some,
    ensures
        final(kmem).wf(),
        *final(data) == *old(data),
        final(data).ready(final(kmem)@),
        Some((final(data).mem(final(kmem)@), r)) == old(data).mem(old(kmem)@).protect(
            args.arg(0) as int,
            true,
        ),
        old(data).pagetable->0.tables_only(old(kmem)@, final(kmem)@),
        old(data).pagetable->0.same_reserved(
            old(kmem)@,
            final(data).pagetable->0,
            final(kmem)@,
        ),
        old(data).settled(old(kmem)@) ==> final(data).settled(final(kmem)@),
{
    set_page_writeable(args, data, kmem, true)
}

/// What is written to the power device to end with the given status.
pub open spec fn power_code(status: u32) -> u32 {
    if status == 0 {
        0x5555
    } else {
        (status << 16) | 0x3333
    }
}

/// Returns what is to be written to the power device.
pub fn sys_poweroff(args: &SyscallArgs) -> (r: u32)
    ensures
        r == power_code(args.arg(0) as u32),
{
    let status = args.get_raw(0) as u32;
    if status == 0 {
        0x5555
    } else {
        (status << 16) | 0x3333
    }
}

} // verus!
