//! Which system call does what.
use vstd::prelude::*;
use crate::abi::{SysError, Syscall};
use crate::file::{Files, FilesState};
use crate::kalloc::{Kmem, KmemState};
use crate::fs::inode::InodeType;
use crate::param::{NOFILE, NPROC};
use crate::pipe::Progress;
use crate::proc::exit::{can_exit, exited, wake};
use crate::proc::fork::{can_fork, forked};
use crate::proc::life::Code;
use crate::proc::table::ProcTable;
use crate::proc::wait::{can_wait, waited, Waited};
use crate::proc::{Channel, Pid, Proc, ProcData, ProcInner, ProcState, TrapFrame, TrapPage};
use crate::error::KernelError;
use crate::sync::OnceLock;
use crate::syscall::SyscallArgs;
use crate::sysfile::calls::{
    call_state,
    callable,
    called,
    sys_chdir,
    sys_dup,
    sys_fstat,
    sys_ioctl,
    sys_link,
    sys_mkdir,
    sys_mknod,
    sys_open,
    sys_read,
    sys_unlink,
    sys_write,
    CallState,
};
use crate::sysfile::pipes::{
    can_close,
    can_open_pipe,
    closed_fd,
    opened_pipe,
    sys_close,
    sys_pipe,
};
use crate::sysfile::run::{called_exec, can_call_exec, lemma_exec_settled, sys_exec};
use crate::sysproc::{
    fork_result,
    power_code,
    slept,
    struck,
    sys_exit,
    sys_fork,
    sys_getpid,
    sys_getusedmem,
    sys_kill,
    sys_mprotect,
    sys_munprotect,
    sys_poweroff,
    sys_sbrk,
    sys_sleep,
    sys_uptime,
    sys_wait,
    used_memory,
    wait_result,
};
use crate::vm::kvm::Kvm;
use crate::vm::VA;

verus! {

/// The state of the system.
pub struct Kernel {
    pub procs: ProcTable,
    pub kmem: Kmem,
    pub files: Files,
    /// Timer interrupts so far
    pub ticks: u64,
    /// Where kernel code is that processes need
    pub code: Code,
    /// The kernel's page table
    pub kvm: OnceLock<Kvm>,
}

/// How a system call ends, or does not yet.
#[derive(Debug, Clone, Copy, PartialEq, Eq)]
pub enum Outcome {
    /// The process goes on with the given result.
    Done(Result<u64, SysError>),
    /// The process has to sleep on the channel, and the call goes on later from there.
    Sleep(u64, Channel),
    /// The process has exited.
    Exited,
    /// The machine is to be switched off, by writing the code to the power device.
    Poweroff(u32),
}

/// The outcome of a call that may have to wait.
pub open spec fn outcome(p: Progress) -> Outcome {
    match p {
        Progress::Done(r) => Outcome::Done(r),
        Progress::Sleep(done, c) => Outcome::Sleep(done, c),
    }
}

/// The outcome of a call that may have to wait.
fn outcome_of(p: Progress) -> (r: Outcome)
    ensures
        r == outcome(p),
{
    match p {
        Progress::Done(r) => Outcome::Done(r),
        Progress::Sleep(done, c) => Outcome::Sleep(done, c),
    }
}

impl CallState {
    /// The calls that work on files alone.
    pub open spec fn file_call(
        self,
        sys: Syscall,
        size: int,
        args: SyscallArgs,
        pid: u64,
        killed: bool,
        done: u64,
    ) -> Option<(CallState, Progress, Option<Channel>)> {
        let simple = |r: Option<(CallState, Result<u64, SysError>)>|
            match r {
                None => None::<(CallState, Progress, Option<Channel>)>,
                Some((s, r)) => Some((s, Progress::Done(r), None::<Channel>)),
            };
        let slow = |r: Option<(CallState, Progress)>|
            match r {
                None => None::<(CallState, Progress, Option<Channel>)>,
                Some((s, p)) => Some((s, p, None::<Channel>)),
            };
        match sys {
            Syscall::Dup => simple(self.sys_dup(args)),
            Syscall::Read => self.sys_read(size, args, pid, killed, done),
            Syscall::Write => self.sys_write(size, args, pid, killed, done),
            Syscall::Fstat => slow(self.sys_fstat(size, args, pid)),
            Syscall::Ioctl => slow(self.sys_ioctl(args, pid)),
            Syscall::Link => simple(self.sys_link(size, args)),
            Syscall::Unlink => simple(self.sys_unlink(size, args)),
            Syscall::Open => simple(self.sys_open(size, args)),
            Syscall::Mkdir => simple(self.sys_make(size, args, InodeType::Directory, 0, 0)),
            Syscall::Mknod => simple(
                self.sys_make(
                    size,
                    args,
                    InodeType::Device,
                    args.arg(1) as u16,
                    args.arg(2) as u16,
                ),
            ),
            Syscall::Chdir => simple(self.sys_chdir(size, args)),
            _ => None,
        }
    }
}

/// The call works on files alone.
pub open spec fn is_file_call(sys: Syscall) -> bool {
    match sys {
        Syscall::Dup
        | Syscall::Read
        | Syscall::Write
        | Syscall::Fstat
        | Syscall::Ioctl
        | Syscall::Link
        | Syscall::Unlink
        | Syscall::Open
        | Syscall::Mkdir
        | Syscall::Mknod
        | Syscall::Chdir => true,
        _ => false,
    }
}

/// Performs a call that works on files alone. Returns also who is to be woken up.
#[verifier::rlimit(40)]
fn file_call(
    sys: Syscall,
    args: &SyscallArgs,
    data: &mut ProcData,
    kmem: &mut Kmem,
    files: &mut Files,
    pid: u64,
    killed: bool,
    done: u64,
) -> (r: (Progress, Option<Channel>))
    requires
        is_file_call(sys),
        callable(*old(files), *old(data), *old(kmem)),
        call_state(old(files)@, *old(data), old(kmem)@).file_call(
            sys,
            old(data).size as int,
            *args,
            pid,
            killed,
            done,
        ) is Some,
    ensures
        callable(*final(files), *final(data), *final(kmem)),
        called(*old(data), old(kmem)@, *final(data), final(kmem)@),
        Some((call_state(final(files)@, *final(data), final(kmem)@), r.0, r.1)) == call_state(
            old(files)@,
            *old(data),
            old(kmem)@,
        ).file_call(sys, old(data).size as int, *args, pid, killed, done),
{
    proof {
        kmem.lemma_wf();
        data.lemma_touched_refl(kmem@);
    }
    match sys {
        Syscall::Dup => (Progress::Done(sys_dup(args, data, kmem, files)), None),
        Syscall::Read => sys_read(args, data, kmem, files, pid, killed, done),
        Syscall::Write => sys_write(args, data, kmem, files, pid, killed, done),
        Syscall::Fstat => (sys_fstat(args, data, kmem, files, pid), None),
        Syscall::Ioctl => (sys_ioctl(args, data, kmem, files, pid), None),
        Syscall::Link => (Progress::Done(sys_link(args, data, kmem, files)), None),
        Syscall::Unlink => (Progress::Done(sys_unlink(args, data, kmem, files)), None),
        Syscall::Open => (Progress::Done(sys_open(args, data, kmem, files)), None),
        Syscall::Mkdir => (Progress::Done(sys_mkdir(args, data, kmem, files)), None),
        Syscall::Mknod => (Progress::Done(sys_mknod(args, data, kmem, files)), None),
        _ => (Progress::Done(sys_chdir(args, data, kmem, files)), None),
    }
}

/// The call works on the process itself and on files.
pub open spec fn is_data_call(sys: Syscall) -> bool {
    is_file_call(sys) || match sys {
        Syscall::Pipe
        | Syscall::Close
        | Syscall::Exec
        | Syscall::Sbrk
        | Syscall::Mprotect
        | Syscall::Munprotect => true,
        _ => false,
    }
}

/// The call can be made by the process with the data `d0`.
#[verifier::opaque]
pub open spec fn can_data_call(
    f0: FilesState,
    d0: ProcData,
    k0: KmemState,
    sys: Syscall,
    args: SyscallArgs,
    who: ProcInner,
    done: u64,
    code: Code,
) -> bool {
    &&& d0.ready(k0)
    &&& d0.open_files@.len() == NOFILE
    &&& if is_file_call(sys) {
        call_state(f0, d0, k0).file_call(
            sys,
            d0.size as int,
            args,
            who.pid.0,
            who.killed,
            done,
        ) is Some
    } else {
        match sys {
            Syscall::Pipe => can_open_pipe(f0, d0, k0, args),
            Syscall::Close => can_close(f0, d0, k0, args),
            Syscall::Exec => can_call_exec(f0.fs, d0, k0, args, code.trampoline),
            Syscall::Sbrk => d0.mem(k0).sbrk(d0.size, args.arg(0) as i64) is Some,
            Syscall::Mprotect => d0.mem(k0).protect(args.arg(0) as int, false) is Some,
            Syscall::Munprotect => d0.mem(k0).protect(args.arg(0) as int, true) is Some,
            _ => false,
        }
    }
}

/// What the call does: `w` is who is to be woken up.
#[verifier::opaque]
pub open spec fn data_called(
    f0: FilesState,
    d0: ProcData,
    k0: KmemState,
    sys: Syscall,
    args: SyscallArgs,
    who: ProcInner,
    done: u64,
    code: Code,
    f1: FilesState,
    d1: ProcData,
    k1: KmemState,
    o: Outcome,
    w: Option<Channel>,
) -> bool {
    &&& d0.settled(k0) ==> d1.settled(k1)
    &&& if is_file_call(sys) {
        let (s, p, wakes) = call_state(f0, d0, k0).file_call(
            sys,
            d0.size as int,
            args,
            who.pid.0,
            who.killed,
            done,
        )->0;
        &&& call_state(f1, d1, k1) == s
        &&& o == outcome(p)
        &&& w == wakes
        &&& called(d0, k0, d1, k1)
    } else {
        &&& o matches Outcome::Done(r)
        &&& match sys {
            Syscall::Pipe => opened_pipe(f0, d0, k0, args, f1, d1, k1, r) && w is None,
            Syscall::Close => closed_fd(f0, d0, k0, args, f1, d1, k1, (r, w)),
            Syscall::Exec => {
                &&& called_exec(f0.fs, d0, k0, args, code.trampoline, f1.fs, d1, k1, r)
                &&& f1 == (FilesState { fs: f1.fs, ..f0 })
                &&& w is None
            },
            Syscall::Sbrk => {
                &&& Some((d1.mem(k1), d1.size, r)) == d0.mem(k0).sbrk(d0.size, args.arg(0) as i64)
                &&& (ProcData { size: d1.size, ..d0 }).touched(k0, d1, k1)
                &&& f1 == f0 && w is None
            },
            Syscall::Mprotect => {
                &&& Some((d1.mem(k1), r)) == d0.mem(k0).protect(args.arg(0) as int, false)
                &&& d0.touched(k0, d1, k1)
                &&& f1 == f0 && w is None
            },
            _ => {
                &&& Some((d1.mem(k1), r)) == d0.mem(k0).protect(args.arg(0) as int, true)
                &&& d1 == d0 && d1.ready(k1)
                &&& d0.pagetable->0.tables_only(k0, k1)
                &&& d0.pagetable->0.same_reserved(k0, d1.pagetable->0, k1)
                &&& f1 == f0 && w is None
            },
        }
    }
}

/// Performs a call on files.
fn call_files(
    sys: Syscall,
    args: &SyscallArgs,
    data: &mut ProcData,
    kmem: &mut Kmem,
    files: &mut Files,
    who: ProcInner,
    done: u64,
    code: Code,
) -> (r: (Outcome, Option<Channel>))
    requires
        is_file_call(sys),
        old(files).wf(),
        old(kmem).wf(),
        can_data_call(old(files)@, *old(data), old(kmem)@, sys, *args, who, done, code),
    ensures
        final(files).wf(),
        final(kmem).wf(),
        data_called(
            old(files)@,
            *old(data),
            old(kmem)@,
            sys,
            *args,
            who,
            done,
            code,
            final(files)@,
            *final(data),
            final(kmem)@,
            r.0,
            r.1,
        ),
{
    let ghost d0 = *data;
    let ghost k0 = kmem@;
    proof {
        kmem.lemma_wf();
        reveal(can_data_call);
        reveal(data_called);
    }
    let (p, wakes) = file_call(sys, args, data, kmem, files, who.pid.0, who.killed, done);
    proof {
        let e = ProcData { open_files: data.open_files, cwd: data.cwd, ..d0 };
        if d0.settled(k0) {
            assert(e.settled(k0));
            e.lemma_still(k0, *data, kmem@);
        }
    }
    (outcome_of(p), wakes)
}

/// Performs a call on the memory of the process.
fn call_memory(
    sys: Syscall,
    args: &SyscallArgs,
    data: &mut ProcData,
    kmem: &mut Kmem,
    files: &mut Files,
    who: ProcInner,
    done: u64,
    code: Code,
) -> (r: (Outcome, Option<Channel>))
    requires
        sys == Syscall::Sbrk || sys == Syscall::Mprotect || sys == Syscall::Munprotect,
        old(files).wf(),
        old(kmem).wf(),
        can_data_call(old(files)@, *old(data), old(kmem)@, sys, *args, who, done, code),
    ensures
        final(files).wf(),
        final(kmem).wf(),
        data_called(
            old(files)@,
            *old(data),
            old(kmem)@,
            sys,
            *args,
            who,
            done,
            code,
            final(files)@,
            *final(data),
            final(kmem)@,
            r.0,
            r.1,
        ),
{
    proof {
        kmem.lemma_wf();
        reveal(can_data_call);
        reveal(data_called);
    }
    let r = match sys {
        Syscall::Sbrk => sys_sbrk(args, data, kmem),
        Syscall::Mprotect => sys_mprotect(args, data, kmem),
        _ => sys_munprotect(args, data, kmem),
    };
    assert(files@ =~= old(files)@);
    (Outcome::Done(r), None)
}

/// Executes a program.
fn call_exec(
    sys: Syscall,
    args: &SyscallArgs,
    data: &mut ProcData,
    kmem: &mut Kmem,
    files: &mut Files,
    who: ProcInner,
    done: u64,
    code: Code,
) -> (r: (Outcome, Option<Channel>))
    requires
        sys == Syscall::Exec,
        old(files).wf(),
        old(kmem).wf(),
        can_data_call(old(files)@, *old(data), old(kmem)@, sys, *args, who, done, code),
    ensures
        final(files).wf(),
        final(kmem).wf(),
        data_called(
            old(files)@,
            *old(data),
            old(kmem)@,
            sys,
            *args,
            who,
            done,
            code,
            final(files)@,
            *final(data),
            final(kmem)@,
            r.0,
            r.1,
        ),
{
    let ghost d0 = *data;
    let ghost k0 = kmem@;
    proof {
        kmem.lemma_wf();
        reveal(can_data_call);
        reveal(data_called);
    }
    let r = sys_exec(args, data, kmem, &mut files.fs, code.trampoline);
    assert(files@.pipes =~= old(files)@.pipes);
    proof {
        lemma_exec_settled(
            old(files)@.fs,
            d0,
            k0,
            *args,
            code.trampoline,
            files@.fs,
            *data,
            kmem@,
            r,
        );
    }
    (Outcome::Done(r), None)
}

/// Performs a call on the process itself and on files. Returns also who is to be woken up.
fn data_call(
    sys: Syscall,
    args: &SyscallArgs,
    data: &mut ProcData,
    kmem: &mut Kmem,
    files: &mut Files,
    who: ProcInner,
    done: u64,
    code: Code,
) -> (r: (Outcome, Option<Channel>))
    requires
        is_data_call(sys),
        old(files).wf(),
        old(kmem).wf(),
        can_data_call(old(files)@, *old(data), old(kmem)@, sys, *args, who, done, code),
    ensures
        final(files).wf(),
        final(kmem).wf(),
        data_called(
            old(files)@,
            *old(data),
            old(kmem)@,
            sys,
            *args,
            who,
            done,
            code,
            final(files)@,
            *final(data),
            final(kmem)@,
            r.0,
            r.1,
        ),
{
    match sys {
        Syscall::Pipe => {
            proof {
                reveal(can_data_call);
                reveal(data_called);
            }
            (Outcome::Done(sys_pipe(args, data, kmem, files)), None)
        },
        Syscall::Close => {
            proof {
                reveal(can_data_call);
                reveal(data_called);
            }
            let (r, wakes) = sys_close(args, data, kmem, files);
            (Outcome::Done(r), wakes)
        },
        Syscall::Exec => call_exec(sys, args, data, kmem, files, who, done, code),
        Syscall::Sbrk | Syscall::Mprotect | Syscall::Munprotect => {
            call_memory(sys, args, data, kmem, files, who, done, code)
        },
        _ => call_files(sys, args, data, kmem, files, who, done, code),
    }
}

impl Kernel {
    /// All parts are in order.
    pub open spec fn wf(self) -> bool {
        &&& self.procs.wf()
        &&& self.kmem.wf()
        &&& self.files.wf()
        &&& self.kvm.value() matches Some(v) ==> v.0.wf(self.kmem@)
    }

    /// Process `id` can make the call.
    pub open spec fn can_call(self, id: usize, sys: Syscall, args: SyscallArgs, done: u64) -> bool {
        let k = self.kmem@;
        let f = self.files@;
        &&& id < NPROC
        &&& if is_data_call(sys) {
            can_data_call(
                f,
                self.procs.table@[id as int].data,
                k,
                sys,
                args,
                self.procs.table@[id as int].inner,
                done,
                self.code,
            )
        } else {
            match sys {
                Syscall::Fork => can_fork(self.procs, k, f, id, self.code),
                Syscall::Exit => can_exit(self.procs, k, f, id),
                Syscall::Wait => can_wait(self.procs, k, id, VA(args.arg(0))),
                Syscall::Sleep => self.ticks < u64::MAX && done <= self.ticks + 1,
                _ => true,
            }
        }
    }

    /// What the call of process `id` does, from `self` to `new`.
    pub open spec fn called(
        self,
        id: usize,
        sys: Syscall,
        args: SyscallArgs,
        done: u64,
        new: Kernel,
        o: Outcome,
    ) -> bool {
        let p0 = self.procs;
        let p1 = new.procs;
        let me = p0.table@[id as int];
        &&& new.ticks == self.ticks
        &&& new.code == self.code
        &&& new.kvm == self.kvm
        &&& if is_data_call(sys) {
            exists|w: Option<Channel>|
                {
                    &&& #[trigger] data_called(
                        self.files@,
                        me.data,
                        self.kmem@,
                        sys,
                        args,
                        me.inner,
                        done,
                        self.code,
                        new.files@,
                        p1.table@[id as int].data,
                        new.kmem@,
                        o,
                        w,
                    )
                    &&& p1.inner() == wake(p0.inner(), id as int, w)
                    &&& p1.parents == p0.parents && p1.pid_count == p0.pid_count && p1.init
                        == p0.init
                    &&& forall|j: int|
                        0 <= j < NPROC && j != id ==> (#[trigger] p1.table@[j]).data
                            == p0.table@[j].data
                }
        } else {
            match sys {
                Syscall::Fork => exists|f: Result<Pid, KernelError>|
                    o == Outcome::Done(fork_result(f)) && #[trigger] forked(
                        p0,
                        self.kmem@,
                        self.files@,
                        id,
                        self.code,
                        p1,
                        new.kmem@,
                        new.files@,
                        f,
                    ),
                Syscall::Exit => o == Outcome::Exited && exited(
                    p0,
                    self.kmem@,
                    self.files@,
                    id,
                    args.arg(0) as i64,
                    p1,
                    new.kmem@,
                    new.files@,
                ),
                Syscall::Wait => new.files@ == self.files@ && exists|w: Waited|
                    o == outcome(wait_result(w)) && #[trigger] waited(
                        p0,
                        self.kmem@,
                        id,
                        VA(args.arg(0)),
                        p1,
                        new.kmem@,
                        w,
                    ),
                Syscall::Kill => {
                    &&& new.kmem@ == self.kmem@ && new.files@ == self.files@
                    &&& o matches Outcome::Done(r)
                    &&& struck(p0, Pid(args.arg(0)), p1, r)
                },
                _ => {
                    &&& new == self
                    &&& o == match sys {
                        Syscall::Getpid => Outcome::Done(Ok(me.inner.pid.0)),
                        Syscall::Uptime => Outcome::Done(Ok(self.ticks)),
                        Syscall::Getusedmem => Outcome::Done(
                            used_memory(self.kvm.value(), self.kmem@),
                        ),
                        Syscall::Sleep => outcome(
                            slept(args.arg(0) as i64, self.ticks, done, me.inner.killed),
                        ),
                        _ => Outcome::Poweroff(power_code(args.arg(0) as u32)),
                    }
                },
            }
        }
    }

    /// Performs the system call of process `id`. `done` is where the call goes on if the process
    /// slept in it, 0 at first.
    #[verifier::rlimit(60)]
    fn call(&mut self, id: usize, sys: Syscall, args: &SyscallArgs, done: u64) -> (r: Outcome)
        requires
            old(self).wf(),
            old(self).can_call(id, sys, *args, done),
        ensures
            final(self).procs.wf() && final(self).kmem.wf() && final(self).files.wf(),
            old(self).called(id, sys, *args, done, *final(self), r),
    {
        match sys {
            Syscall::Fork => {
                let r = sys_fork(&mut self.procs, &mut self.kmem, &mut self.files, id, self.code);
                Outcome::Done(r)
            },
            Syscall::Exit => {
                sys_exit(args, &mut self.procs, &mut self.kmem, &mut self.files, id);
                Outcome::Exited
            },
            Syscall::Wait => {
                let p = sys_wait(args, &mut self.procs, &mut self.kmem, id);
                outcome_of(p)
            },
            Syscall::Kill => Outcome::Done(sys_kill(args, &mut self.procs)),
            Syscall::Getpid => Outcome::Done(sys_getpid(&self.procs, id)),
            Syscall::Uptime => Outcome::Done(sys_uptime(self.ticks)),
            Syscall::Getusedmem => Outcome::Done(sys_getusedmem(&self.kvm, &self.kmem)),
            Syscall::Sleep => {
                let killed = self.procs.table[id].inner.killed;
                outcome_of(sys_sleep(args, self.ticks, done, killed))
            },
            Syscall::Poweroff => Outcome::Poweroff(sys_poweroff(args)),
            _ => {
                let who = self.procs.table[id].inner;
                let code = self.code;
                let ghost p0 = self.procs;
                let (o, wakes) = data_call(
                    sys,
                    args,
                    &mut self.procs.table[id].data,
                    &mut self.kmem,
                    &mut self.files,
                    who,
                    done,
                    code,
                );
                let ghost p1 = self.procs;
                assert(p1.inner() =~= p0.inner());
                self.procs.wake_up(wakes, id);
                proof {
                    let me = p0.table@[id as int];
                    assert(data_called(
                        old(self).files@,
                        me.data,
                        old(self).kmem@,
                        sys,
                        *args,
                        me.inner,
                        done,
                        code,
                        self.files@,
                        self.procs.table@[id as int].data,
                        self.kmem@,
                        o,
                        wakes,
                    ));
                    assert forall|j: int| 0 <= j < NPROC && j != id implies (
                    #[trigger] self.procs.table@[j]).data == p0.table@[j].data by {
                        assert(p1.table@[j] == p0.table@[j]);
                    }
                }
                o
            },
        }
    }
}

/// The call leaves the process its trap frame.
proof fn lemma_keeps_frame(
    k0: Kernel,
    id: usize,
    sys: Syscall,
    args: SyscallArgs,
    done: u64,
    k1: Kernel,
    o: Outcome,
)
    requires
        id < NPROC,
        k0.procs.wf(),
        k0.called(id, sys, args, done, k1, o),
        k0.procs.table@[id as int].data.trapframe is Some,
        o is Done,
        sys == Syscall::Exec ==> k0.procs.table@[id as int].data.settled(k0.kmem@),
    ensures
        k1.procs.table@[id as int].data.trapframe is Some,
{
    if is_data_call(sys) {
        reveal(data_called);
        reveal(crate::exec::run::executed);
    } else if sys == Syscall::Fork {
        reveal(forked);
    } else if sys == Syscall::Wait {
        reveal(waited);
    }
}

/// The data of a process with another value in the register for results.
pub open spec fn with_result(d: ProcData, word: u64) -> ProcData {
    let t = d.trapframe->0;
    ProcData {
        trapframe: Some(TrapPage { frame: TrapFrame { a0: word, ..t.frame }, ..t }),
        ..d
    }
}

impl Kernel {
    /// What handling the system call of process `id` does: `mid` is the state when the call
    /// itself is done.
    pub open spec fn handled(self, id: usize, mid: Kernel, new: Kernel, o: Outcome) -> bool {
        let p0 = mid.procs;
        let p1 = new.procs;
        let me = p0.table@[id as int];
        &&& new.kmem == mid.kmem && new.files == mid.files && new.ticks == mid.ticks
        &&& new.code == mid.code && new.kvm == mid.kvm
        &&& p1.parents == p0.parents && p1.pid_count == p0.pid_count && p1.init == p0.init
        &&& p1.table@ == p0.table@.update(
            id as int,
            match o {
                Outcome::Done(r) => Proc { data: with_result(me.data, SysError::encode(r)), ..me },
                Outcome::Sleep(_, c) => Proc {
                    inner: ProcInner {
                        channel: Some(c),
                        state: ProcState::Sleeping,
                        ..me.inner
                    },
                    ..me
                },
                _ => me,
            },
        )
    }

    /// Handles a system call of process `id`: which one is in register a7, and the result goes to
    /// a0. `done` is where the call goes on if the process slept in it, 0 at first.
    pub fn syscall(&mut self, id: usize, done: u64) -> (r: Outcome)
        requires
            old(self).wf(),
            id < NPROC,
            old(self).procs.table@[id as int].data.trapframe is Some,
            ({
                let frame = old(self).procs.table@[id as int].data.trapframe->0.frame;
                Syscall::of(frame.a7) matches Ok(sys) ==> forall|args: SyscallArgs|
                    args.frame() == frame ==> #[trigger] old(self).can_call(id, sys, args, done)
            }),
        ensures
            final(self).procs.wf() && final(self).kmem.wf() && final(self).files.wf(),
            ({
                let frame = old(self).procs.table@[id as int].data.trapframe->0.frame;
                match Syscall::of(frame.a7) {
                    Err(e) => r == Outcome::Done(Err(e)) && old(self).handled(
                        id,
                        *old(self),
                        *final(self),
                        r,
                    ),
                    Ok(sys) => exists|args: SyscallArgs, mid: Kernel|
                        {
                            &&& args.frame() == frame
                            &&& #[trigger] old(self).called(id, sys, args, done, mid, r)
                            &&& old(self).handled(id, mid, *final(self), r)
                        },
                }
            }),
    {
        let frame = *self.procs.table[id].data.trapframe();
        let args = SyscallArgs::new(frame);
        let ghost k0 = *self;
        let r = match Syscall::try_from(frame.a7) {
            Ok(sys) => {
                assert(self.can_call(id, sys, args, done));
                let r = self.call(id, sys, &args, done);
                proof {
                    if r is Done {
                        if sys == Syscall::Exec {
                            reveal(can_data_call);
                        }
                        lemma_keeps_frame(k0, id, sys, args, done, *self, r);
                    }
                }
                r
            },
            Err(e) => Outcome::Done(Err(e)),
        };
        let ghost mid = *self;
        match r {
            Outcome::Done(result) => {
                let word = SysError::encode_result(result);
                self.procs.table[id].data.trapframe_mut().a0 = word;
            },
            Outcome::Sleep(_, channel) => {
                self.procs.table[id].inner.channel = Some(channel);
                self.procs.table[id].inner.state = ProcState::Sleeping;
            },
            _ => {},
        }
        proof {
            let want = mid.procs.table@.update(
                id as int,
                match r {
                    Outcome::Done(r) => Proc {
                        data: with_result(
                            mid.procs.table@[id as int].data,
                            SysError::encode(r),
                        ),
                        ..mid.procs.table@[id as int]
                    },
                    Outcome::Sleep(_, c) => Proc {
                        inner: ProcInner {
                            channel: Some(c),
                            state: ProcState::Sleeping,
                            ..mid.procs.table@[id as int].inner
                        },
                        ..mid.procs.table@[id as int]
                    },
                    _ => mid.procs.table@[id as int],
                },
            );
            assert(self.procs.table@ =~= want);
            assert(k0.handled(id, mid, *self, r));
        }
        r
    }
}

} // verus!
