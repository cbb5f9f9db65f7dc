//! Which call does what, by its name.
use vstd::prelude::*;
use crate::abi::{SysError, Syscall};
use crate::error::KernelError;
use crate::file::FilesState;
use crate::fs::inode::InodeType;
use crate::kalloc::KmemState;
use crate::pipe::Progress;
use crate::param::NPROC;
use crate::proc::call_laws::{is_copy, law_fork, law_kill, law_sbrk, law_wait, status_shown};
use crate::proc::fork::forked;
use crate::proc::life::Code;
use crate::proc::wait::{waited, Waited};
use crate::proc::{Channel, Pid, ProcData, ProcInner, ProcState};
use crate::riscv::{PGSIZE, PTE_W};
use crate::syscall::dispatch::{data_called, outcome, Kernel, Outcome};
use crate::syscall::SyscallArgs;
use crate::sysfile::calls::{call_state, CallState};
use crate::sysfile::pipes::{closed_fd, opened_pipe};
use crate::sysfile::run::called_exec;
use crate::sysproc::{fork_result, wait_result};
use crate::vm::flag;
use crate::vm::usermem::UPAGES;
use crate::vm::VA;

verus! {

/// What came of a call on files that does not wait.
pub open spec fn done_with(
    was: Option<(CallState, Result<u64, SysError>)>,
    now: CallState,
    o: Outcome,
    w: Option<Channel>,
) -> bool {
    was matches Some((c, r)) && now == c && o == Outcome::Done(r) && w is None
}

/// What came of one that may have to wait.
pub open spec fn went_on(p: Progress, o: Outcome) -> bool {
    match p {
        Progress::Done(r) => o == Outcome::Done(r),
        Progress::Sleep(n, c) => o == Outcome::Sleep(n, c),
    }
}

/// Each call on files works on the files, the memory, the descriptors and the directory of the process
/// that makes it, with its arguments, and does what its name says.
#[verifier::rlimit(40)]
pub proof fn law_file_calls(
    f0: FilesState,
    d0: ProcData,
    k0: KmemState,
    sys: Syscall,
    args: SyscallArgs,
    who: ProcInner,
    done: u64,
    code: Code,
    f1: FilesState,
    d1: ProcData,
    k1: KmemState,
    o: Outcome,
    w: Option<Channel>,
)
    requires
        data_called(f0, d0, k0, sys, args, who, done, code, f1, d1, k1, o, w),
        call_state(f0, d0, k0).file_call(
            sys,
            d0.size as int,
            args,
            who.pid.0,
            who.killed,
            done,
        ) is Some,
    ensures
        ({
            let c = call_state(f0, d0, k0);
            let t = call_state(f1, d1, k1);
            let size = d0.size as int;
            let pid = who.pid.0;
            match sys {
                Syscall::Read => c.sys_read(size, args, pid, who.killed, done) matches Some((x, p, v))
                    && t == x && went_on(p, o) && w == v,
                Syscall::Write => c.sys_write(size, args, pid, who.killed, done) matches Some(
                    (x, p, v),
                ) && t == x && went_on(p, o) && w == v,
                Syscall::Fstat => c.sys_fstat(size, args, pid) matches Some((x, p)) && t == x
                    && went_on(p, o) && w is None,
                Syscall::Ioctl => c.sys_ioctl(args, pid) matches Some((x, p)) && t == x && went_on(
                    p,
                    o,
                ) && w is None,
                Syscall::Dup => done_with(c.sys_dup(args), t, o, w),
                Syscall::Link => done_with(c.sys_link(size, args), t, o, w),
                Syscall::Unlink => done_with(c.sys_unlink(size, args), t, o, w),
                Syscall::Open => done_with(c.sys_open(size, args), t, o, w),
                Syscall::Mkdir => done_with(
                    c.sys_make(size, args, InodeType::Directory, 0, 0),
                    t,
                    o,
                    w,
                ),
                Syscall::Mknod => done_with(
                    c.sys_make(
                        size,
                        args,
                        InodeType::Device,
                        args.arg(1) as u16,
                        args.arg(2) as u16,
                    ),
                    t,
                    o,
                    w,
                ),
                Syscall::Chdir => done_with(c.sys_chdir(size, args), t, o, w),
                _ => true,
            }
        }),
{
    reveal(data_called);
}

/// The calls that make and close descriptors and that execute a program.
pub proof fn law_other_file_calls(
    f0: FilesState,
    d0: ProcData,
    k0: KmemState,
    sys: Syscall,
    args: SyscallArgs,
    who: ProcInner,
    done: u64,
    code: Code,
    f1: FilesState,
    d1: ProcData,
    k1: KmemState,
    o: Outcome,
    w: Option<Channel>,
)
    requires
        data_called(f0, d0, k0, sys, args, who, done, code, f1, d1, k1, o, w),
        sys == Syscall::Pipe || sys == Syscall::Close || sys == Syscall::Exec,
    ensures
        o matches Outcome::Done(r) && match sys {
            Syscall::Pipe => opened_pipe(f0, d0, k0, args, f1, d1, k1, r),
            Syscall::Close => closed_fd(f0, d0, k0, args, f1, d1, k1, (r, w)),
            _ => called_exec(f0.fs, d0, k0, args, code.trampoline, f1.fs, d1, k1, r),
        },
{
    reveal(data_called);
}

/// A process that changes its size gets the size before; one that protects a page cannot write it any
/// more, and one that takes the protection back can. Its files are not touched.
pub proof fn law_memory_calls(
    f0: FilesState,
    d0: ProcData,
    k0: KmemState,
    sys: Syscall,
    args: SyscallArgs,
    who: ProcInner,
    done: u64,
    code: Code,
    f1: FilesState,
    d1: ProcData,
    k1: KmemState,
    o: Outcome,
    w: Option<Channel>,
)
    requires
        data_called(f0, d0, k0, sys, args, who, done, code, f1, d1, k1, o, w),
        sys == Syscall::Sbrk || sys == Syscall::Mprotect || sys == Syscall::Munprotect,
        d0.size <= UPAGES * PGSIZE,
    ensures
        f1 == f0,
        w is None,
        o is Done,
        ({
            let r = o->Done_0;
            let n = args.arg(0) as i64;
            let p = args.arg(0) as int / (PGSIZE as int);
            match sys {
                Syscall::Sbrk => {
                    &&& r is Ok <==> d0.size + n >= 0
                    &&& r matches Ok(old_size) ==> old_size == d0.size && d1.size == d0.size + n
                    &&& r is Err ==> d1.size == d0.size
                },
                Syscall::Mprotect => r is Ok ==> !flag(d1.mem(k1).pages[p].flags, PTE_W),
                _ => r is Ok ==> flag(d1.mem(k1).pages[p].flags, PTE_W),
            }
        }),
{
    reveal(data_called);
    if sys == Syscall::Sbrk {
        law_sbrk(d0.mem(k0), d0.size, args.arg(0) as i64);
    } else {
        let f = d0.mem(k0).pages[args.arg(0) as int / (PGSIZE as int)].flags;
        assert((f | 4) & 4 != 0 && (f & !4u64) & 4 == 0) by (bit_vector);
    }
}

/// Forking returns the PID of the copy to the one that made the call, or says that there is no room.
pub proof fn law_fork_call(k: Kernel, id: usize, args: SyscallArgs, done: u64, new: Kernel, o: Outcome)
    requires
        k.can_call(id, Syscall::Fork, args, done),
        k.called(id, Syscall::Fork, args, done, new, o),
        k.procs.table@[id as int].data.size <= UPAGES * PGSIZE,
    ensures
        match o {
            Outcome::Done(Ok(pid)) => exists|i: int| #[trigger]
                is_copy(k.procs, k.kmem@, id as int, new.procs, new.kmem@, i, Pid(pid)),
            Outcome::Done(Err(e)) => e == SysError::ResourceUnavailable && new.files@ == k.files@
                && new.procs.parents == k.procs.parents,
            _ => false,
        },
{
    let f = choose|f: Result<Pid, KernelError>|
        o == Outcome::Done(fork_result(f)) && #[trigger] forked(
            k.procs,
            k.kmem@,
            k.files@,
            id,
            k.code,
            new.procs,
            new.kmem@,
            new.files@,
            f,
        );
    law_fork(k.procs, k.kmem@, k.files@, id, k.code, new.procs, new.kmem@, new.files@, f);
    if let Ok(pid) = f {
        let i = choose|i: int| #[trigger]
            is_copy(k.procs, k.kmem@, id as int, new.procs, new.kmem@, i, pid);
        assert(is_copy(k.procs, k.kmem@, id as int, new.procs, new.kmem@, i, pid));
        let word = fork_result(f)->Ok_0;
        assert(pid == Pid(word));
        assert(o == Outcome::Done(Ok::<u64, SysError>(word)));
        assert(is_copy(k.procs, k.kmem@, id as int, new.procs, new.kmem@, i, Pid(word)));
    }
}

/// Waiting returns the PID of a child that had exited; it sleeps while there are only others, and is an
/// error when there are none.
pub proof fn law_wait_call(k: Kernel, id: usize, args: SyscallArgs, done: u64, new: Kernel, o: Outcome)
    requires
        k.can_call(id, Syscall::Wait, args, done),
        k.called(id, Syscall::Wait, args, done, new, o),
        k.procs.table@[id as int].data.mem(k.kmem@).whole(),
    ensures
        new.files@ == k.files@,
        match o {
            Outcome::Done(Ok(pid)) => exists|j: int| #[trigger]
                k.procs.is_child(j, id) && k.procs.table@[j].inner.state == ProcState::Zombie
                    && k.procs.table@[j].inner.pid == Pid(pid) && new.procs.table@[j].inner.state
                    == ProcState::Unused && status_shown(
                    k.procs.table@[id as int].data.mem(k.kmem@),
                    new.procs.table@[id as int].data.mem(new.kmem@),
                    VA(args.arg(0)),
                    k.procs.table@[j].inner.xstate,
                ),
            Outcome::Done(Err(e)) => e == SysError::NoChildren && new.procs == k.procs && (
            k.procs.table@[id as int].inner.killed || forall|j: int| !k.procs.is_child(j, id)),
            Outcome::Sleep(n, c) => n == 0 && c == Channel::Proc(id) && new.procs == k.procs
                && exists|j: int| k.procs.is_child(j, id),
            _ => false,
        },
{
    let w = choose|w: Waited|
        o == outcome(wait_result(w)) && #[trigger] waited(
            k.procs,
            k.kmem@,
            id,
            VA(args.arg(0)),
            new.procs,
            new.kmem@,
            w,
        );
    law_wait(k.procs, k.kmem@, id, VA(args.arg(0)), new.procs, new.kmem@, w);
}

/// The calls that ask for something: the own PID, the time, how much memory is used. They change
/// nothing. Sleeping waits for the time that was asked for, and switching off says with which code.
pub proof fn law_questions(k: Kernel, id: usize, sys: Syscall, args: SyscallArgs, done: u64, new: Kernel, o: Outcome)
    requires
        k.called(id, sys, args, done, new, o),
        sys == Syscall::Getpid || sys == Syscall::Uptime || sys == Syscall::Sleep || sys
            == Syscall::Poweroff,
    ensures
        new == k,
        sys == Syscall::Getpid ==> o == Outcome::Done(
            Ok::<u64, SysError>(k.procs.table@[id as int].inner.pid.0),
        ),
        sys == Syscall::Uptime ==> o == Outcome::Done(Ok::<u64, SysError>(k.ticks)),
        sys == Syscall::Sleep && done == 0 && args.arg(0) as i64 <= 0 ==> o == Outcome::Done(
            Ok::<u64, SysError>(0),
        ),
        sys == Syscall::Sleep && done > 0 ==> (o == Outcome::Done(Ok::<u64, SysError>(0))
            <==> k.ticks - (done - 1) >= args.arg(0) as i64),
        sys == Syscall::Poweroff ==> o is Poweroff,
        sys == Syscall::Poweroff && args.arg(0) as u32 == 0 ==> o == Outcome::Poweroff(0x5555),
{
}

/// Killing reaches the process with the PID that was given, and no other.
pub proof fn law_kill_call(k: Kernel, id: usize, args: SyscallArgs, done: u64, new: Kernel, o: Outcome, i: int)
    requires
        k.procs.wf(),
        k.procs.pids_unique(),
        k.called(id, Syscall::Kill, args, done, new, o),
        0 <= i < NPROC,
    ensures
        k.procs.is_pid(i, Pid(args.arg(0))) ==> o == Outcome::Done(Ok::<u64, SysError>(0))
            && new.procs.table@[i].inner.killed && new.procs.table@[i].inner.state
            != ProcState::Sleeping,
        !k.procs.is_pid(i, Pid(args.arg(0))) ==> new.procs.table@[i].inner
            == k.procs.table@[i].inner,
        (forall|j: int| !k.procs.is_pid(j, Pid(args.arg(0)))) ==> o == Outcome::Done(
            Err::<u64, SysError>(SysError::NoProcess),
        ),
        new.files@ == k.files@,
{
    law_kill(k.procs, Pid(args.arg(0)), new.procs, o->Done_0, i);
}

} // verus!
