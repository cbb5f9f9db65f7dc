//! Interrupts, exceptions and system calls.
use vstd::prelude::*;
use crate::abi::Syscall;
use crate::memlayout::{TRAMPOLINE, UART0_IRQ, VIRTIO0_IRQ};
use crate::param::{NKSTACK_PAGES, NOFILE, NPROC};
use crate::proc::exit::{can_exit, exit, exited};
use crate::proc::table::woken;
use crate::proc::{Channel, ProcData, ProcInner, ProcState, TrapFrame, TrapPage};
use crate::riscv::{make, Exception, Interrupt, Trap, PGSIZE, SPIE, SPP, SV39};
use crate::syscall::dispatch::{can_data_call, Kernel, Outcome};
use crate::syscall::SyscallArgs;
use crate::vm::usermem::UPAGES;
use crate::vm::VA;

pub mod laws;

verus! {

/// Time between timer interrupts, about a tenth of a second
pub const TICK: u64 = 1_000_000;

/// Kinds of interrupts that are handled
#[derive(Debug, Clone, Copy, PartialEq, Eq, Structural)]
pub enum InterruptType {
    Device,
    Timer,
}

/// What is to be done for an interrupt.
#[derive(Debug, Clone, Copy, PartialEq, Eq, Structural)]
pub enum Action {
    Nothing,
    /// Let the UART handle it.
    Uart,
    /// Let the disk handle it.
    Disk,
    /// Report an interrupt that nobody expects.
    Report(u32),
    /// Handle the clock.
    Clock,
}

/// What is said about a process that is killed.
#[derive(Debug, Clone, Copy, PartialEq, Eq, Structural)]
pub enum Message {
    /// It used a null pointer.
    Segfault,
    /// It used memory that it must not.
    PageFault,
    /// It caused something that nobody expects.
    Unexpected,
}

/// Checks if interrupt is from an external device or software timer. `irq` is what the PLIC says,
/// if it is asked. Returns what is to be done, and whether the PLIC is to be told that the
/// interrupt has been served.
pub fn device_interrupt(intr: Interrupt, irq: u32) -> (r: (Option<InterruptType>, Action, bool))
    ensures
        r == match intr {
            Interrupt::SupervisorExternal => (
                Some(InterruptType::Device),
                if irq == 0 {
                    Action::Nothing
                } else if irq == UART0_IRQ {
                    Action::Uart
                } else if irq == VIRTIO0_IRQ {
                    Action::Disk
                } else {
                    Action::Report(irq)
                },
                irq != 0,
            ),
            Interrupt::SupervisorTimer => (Some(InterruptType::Timer), Action::Clock, false),
            _ => (None::<InterruptType>, Action::Nothing, false),
        },
{
    match intr {
        // Supervisor external interrupt via PLIC
        Interrupt::SupervisorExternal => {
            let action = if irq == 0 {
                Action::Nothing  // spurious interrupt from PLIC, ignore

            } else if irq == UART0_IRQ {
                Action::Uart
            } else if irq == VIRTIO0_IRQ {
                Action::Disk
            } else {
                Action::Report(irq)
            };
            (Some(InterruptType::Device), action, irq != 0)
        },
        // Timer interrupt
        Interrupt::SupervisorTimer => (Some(InterruptType::Timer), Action::Clock, false),
        // some other interrupt, we don't recognize
        _ => (None, Action::Nothing, false),
    }
}

impl Kernel {
    /// Handles a clock interrupt on the given hart at the given time: the first hart counts, and
    /// wakes up who waits for the time to pass. Returns when the next one is to come.
    pub fn clock_intr(&mut self, hart: u64, now: u64, current: Option<usize>) -> (r: u64)
        requires
            old(self).wf(),
            old(self).ticks < u64::MAX,
            now + TICK <= u64::MAX,
        ensures
            final(self).wf(),
            r == now + TICK,
            final(self).kmem == old(self).kmem && final(self).files == old(self).files,
            final(self).code == old(self).code && final(self).kvm == old(self).kvm,
            hart != 0 ==> *final(self) == *old(self),
            hart == 0 ==> {
                &&& final(self).ticks == old(self).ticks + 1
                &&& old(self).procs.same_but_inner(final(self).procs)
                &&& forall|i: int|
                    0 <= i < NPROC ==> (#[trigger] final(self).procs.table@[i]).inner == (if current
                        == Some(i as usize) {
                        old(self).procs.table@[i].inner
                    } else {
                        woken(old(self).procs.table@[i].inner, Channel::Ticks)
                    })
            },
    {
        if hart == 0 {
            self.ticks = self.ticks + 1;
            self.procs.wakeup(Channel::Ticks, current);
        }
        now + TICK
    }
}

/// The exception is about memory that is not there, or must not be used so.
pub open spec fn is_fault(e: Exception) -> bool {
    match e {
        Exception::StorePageFault
        | Exception::LoadPageFault
        | Exception::InstructionPageFault
        | Exception::LoadAccessFault
        | Exception::StoreAccessFault
        | Exception::InstructionAccessFault => true,
        _ => false,
    }
}

/// The data of a process that goes on at `epc`.
pub open spec fn with_epc(d: ProcData, epc: u64) -> ProcData {
    let t = d.trapframe->0;
    ProcData { trapframe: Some(TrapPage { frame: TrapFrame { epc, ..t.frame }, ..t }), ..d }
}

/// What comes of a trap before the process returns or exits.
#[derive(Debug, Clone, Copy, PartialEq, Eq, Structural)]
pub enum Entry {
    /// It is a system call.
    Call,
    /// It was a system call of a process that has been killed.
    Killed,
    /// It has been dealt with; if the process is to be killed there is something to say.
    Handled(Option<Message>),
}

impl Kernel {
    /// The trap of process `id` can be dealt with.
    pub open spec fn can_enter(self, id: usize, trap: Trap, sepc: u64, stval: u64) -> bool {
        let d = self.procs.table@[id as int].data;
        &&& id < NPROC
        &&& d.trapframe is Some
        &&& trap == Trap::Exception(Exception::EnvironmentCall) ==> sepc + 4 <= u64::MAX
        &&& (trap matches Trap::Exception(e) && is_fault(e)) ==> d.ready(self.kmem@) && d.mem(
            self.kmem@,
        ).fault(d.size as int, stval as int) is Some
    }

    /// What is done about the trap of process `id` first: from `self` to `new`. `device` says
    /// which kind of interrupt it was, if it is one that is handled.
    pub open spec fn entered(
        self,
        id: usize,
        trap: Trap,
        sepc: u64,
        stval: u64,
        device: Option<InterruptType>,
        new: Kernel,
        e: Entry,
    ) -> bool {
        let me = self.procs.table@[id as int];
        let d = with_epc(me.data, sepc);
        let p = new.procs.table@[id as int];
        let struck = ProcInner { killed: true, ..me.inner };
        &&& new.files == self.files && new.ticks == self.ticks && new.code == self.code && new.kvm
            == self.kvm
        &&& new.procs.parents == self.procs.parents && new.procs.pid_count == self.procs.pid_count
            && new.procs.init == self.procs.init
        &&& new.procs.table@ == self.procs.table@.update(id as int, p)
        &&& p.id == me.id
        &&& match trap {
            Trap::Exception(x) => if x == Exception::EnvironmentCall {
                &&& new.kmem == self.kmem
                &&& p.inner == me.inner
                &&& if me.inner.killed {
                    e == Entry::Killed && p.data == d
                } else {
                    e == Entry::Call && p.data == with_epc(me.data, (sepc + 4) as u64)
                }
            } else if is_fault(x) {
                let (m, r) = me.data.mem(self.kmem@).fault(me.data.size as int, stval as int)->0;
                &&& d.touched(self.kmem@, p.data, new.kmem@)
                &&& p.data.mem(new.kmem@) == m
                &&& if r is Ok {
                    e == Entry::Handled(None) && p.inner == me.inner
                } else {
                    &&& p.inner == struck
                    &&& e == Entry::Handled(
                        Some(
                            if stval < PGSIZE {
                                Message::Segfault
                            } else {
                                Message::PageFault
                            },
                        ),
                    )
                }
            } else {
                &&& new.kmem == self.kmem
                &&& p.data == d && p.inner == struck
                &&& e == Entry::Handled(
                    Some(
                        if x == Exception::IllegalInstruction {
                            Message::Segfault
                        } else {
                            Message::Unexpected
                        },
                    ),
                )
            },
            Trap::Interrupt(_) => {
                &&& new.kmem == self.kmem
                &&& p.data == d
                &&& if device is Some {
                    e == Entry::Handled(None) && p.inner == me.inner
                } else {
                    e == Entry::Handled(Some(Message::Unexpected)) && p.inner == struck
                }
            },
        }
    }

    /// Deals with a trap of process `id`, up to a system call.
    #[verifier::rlimit(50)]
    fn enter(
        &mut self,
        id: usize,
        trap: Trap,
        sepc: u64,
        stval: u64,
        device: Option<InterruptType>,
    ) -> (r: Entry)
        requires
            old(self).procs.wf() && old(self).kmem.wf(),
            old(self).can_enter(id, trap, sepc, stval),
        ensures
            final(self).procs.wf() && final(self).kmem.wf(),
            old(self).entered(id, trap, sepc, stval, device, *final(self), r),
    {
        // save user program counter
        self.procs.table[id].data.trapframe_mut().epc = sepc;
        let r = match trap {
            // System call
            Trap::Exception(Exception::EnvironmentCall) => {
                if self.procs.table[id].inner.killed {
                    Entry::Killed
                } else {
                    // sepc points to the ecall instruction, but we want to return to the next
                    // instruction.
                    self.procs.table[id].data.trapframe_mut().epc = sepc + 4;
                    Entry::Call
                }
            },
            // page fault on lazily-allocated page, a protected page, or a null pointer
            Trap::Exception(Exception::StorePageFault)
            | Trap::Exception(Exception::LoadPageFault)
            | Trap::Exception(Exception::InstructionPageFault)
            | Trap::Exception(Exception::LoadAccessFault)
            | Trap::Exception(Exception::StoreAccessFault)
            | Trap::Exception(Exception::InstructionAccessFault) => {
                let size = self.procs.table[id].data.size;
                // vmfault handles lazy / COW faults. If it fails, this is a real memory error.
                let fault = self.procs.table[id].data.pagetable_mut().vmfault(
                    &mut self.kmem,
                    size,
                    VA(stval),
                );
                if fault.is_err() {
                    self.procs.table[id].inner.killed = true;
                    if stval < PGSIZE {
                        Entry::Handled(Some(Message::Segfault))
                    } else {
                        Entry::Handled(Some(Message::PageFault))
                    }
                } else {
                    Entry::Handled(None)
                }
            },
            // Release builds may lower `*null` to an illegal instruction (`unimp`).
            // That still means the user tried to dereference a null pointer.
            Trap::Exception(Exception::IllegalInstruction) => {
                self.procs.table[id].inner.killed = true;
                Entry::Handled(Some(Message::Segfault))
            },
            // device interrupt
            Trap::Interrupt(_) => {
                if device.is_some() {
                    Entry::Handled(None)
                } else {
                    self.procs.table[id].inner.killed = true;
                    Entry::Handled(Some(Message::Unexpected))
                }
            },
            // something else
            _ => {
                self.procs.table[id].inner.killed = true;
                Entry::Handled(Some(Message::Unexpected))
            },
        };
        proof {
            assert(self.procs.table@ =~= old(self).procs.table@.update(
                id as int,
                self.procs.table@[id as int],
            ));
        }
        r
    }
}

/// How the kernel leaves a process that trapped.
#[derive(Debug, Clone, Copy, PartialEq, Eq)]
pub enum Leave {
    /// It returns to user space, after it has given up the CPU for a round if `turn`.
    Return { turn: bool },
    /// It sleeps in a system call, which goes on from there.
    Sleep(u64, Channel),
    /// It has exited.
    Exited,
    /// The machine is to be switched off.
    Poweroff(u32),
}

impl Kernel {
    /// The end of a trap of process `id`, whose memory and files are in order: one that was killed
    /// exits, and one that used up its time gives up the CPU.
    pub open spec fn left(
        self,
        id: usize,
        device: Option<InterruptType>,
        new: Kernel,
        l: Leave,
    ) -> bool {
        let me = self.procs.table@[id as int];
        &&& new.ticks == self.ticks && new.code == self.code && new.kvm == self.kvm
        &&& if me.inner.killed {
            l == Leave::Exited && exited(
                self.procs,
                self.kmem@,
                self.files@,
                id,
                (-1) as i64,
                new.procs,
                new.kmem@,
                new.files@,
            )
        } else {
            let turn = device == Some(InterruptType::Timer);
            &&& l == Leave::Return { turn }
            &&& new.kmem == self.kmem && new.files == self.files
            &&& self.procs.same_but_inner(new.procs)
            &&& new.procs.inner() == self.procs.inner().update(
                id as int,
                ProcInner {
                    state: if turn {
                        ProcState::Runnable
                    } else {
                        me.inner.state
                    },
                    ..me.inner
                },
            )
        }
    }

    /// Ends a trap of process `id`.
    fn leave(&mut self, id: usize, device: Option<InterruptType>) -> (r: Leave)
        requires
            old(self).procs.wf() && old(self).kmem.wf() && old(self).files.wf(),
            id < NPROC,
            old(self).procs.table@[id as int].inner.killed ==> can_exit(
                old(self).procs,
                old(self).kmem@,
                old(self).files@,
                id,
            ),
        ensures
            final(self).procs.wf() && final(self).kmem.wf() && final(self).files.wf(),
            old(self).left(id, device, *final(self), r),
    {
        if self.procs.table[id].inner.killed {
            exit(&mut self.procs, &mut self.kmem, &mut self.files, id, -1);
            return Leave::Exited;
        }
        let turn = match device {
            Some(InterruptType::Timer) => true,
            _ => false,
        };
        if turn {
            self.procs.yield_now(id);
        } else {
            assert(self.procs.inner() =~= old(self).procs.inner().update(
                id as int,
                old(self).procs.table@[id as int].inner,
            ));
        }
        Leave::Return { turn }
    }

    /// The call of process `id` can be handled.
    pub open spec fn can_syscall(self, id: usize, done: u64) -> bool {
        let frame = self.procs.table@[id as int].data.trapframe->0.frame;
        &&& self.wf()
        &&& id < NPROC
        &&& self.procs.table@[id as int].data.trapframe is Some
        &&& (Syscall::of(frame.a7) matches Ok(sys) ==> forall|args: SyscallArgs|
            args.frame() == frame ==> #[trigger] self.can_call(id, sys, args, done))
    }

    /// What handling the call of process `id` does.
    pub open spec fn syscalled(self, id: usize, done: u64, new: Kernel, o: Outcome) -> bool {
        let frame = self.procs.table@[id as int].data.trapframe->0.frame;
        match Syscall::of(frame.a7) {
            Err(e) => o == Outcome::Done(Err(e)) && self.handled(id, self, new, o),
            Ok(sys) => exists|args: SyscallArgs, mid: Kernel|
                {
                    &&& args.frame() == frame
                    &&& #[trigger] self.called(id, sys, args, done, mid, o)
                    &&& self.handled(id, mid, new, o)
                },
        }
    }

    /// Whatever is made of the trap of process `id` first can be followed up.
    pub open spec fn can_trap(self, id: usize, trap: Trap, sepc: u64, stval: u64, device: Option<
        InterruptType,
    >) -> bool {
        &&& self.wf()
        &&& self.can_enter(id, trap, sepc, stval)
        &&& forall|mid: Kernel, e: Entry| #[trigger]
            self.entered(id, trap, sepc, stval, device, mid, e) ==> match e {
                Entry::Call => mid.can_syscall(id, 0) && forall|k: Kernel, o: Outcome|
                    #[trigger] mid.syscalled(id, 0, k, o) && o is Done
                        && k.procs.table@[id as int].inner.killed ==> can_exit(
                        k.procs,
                        k.kmem@,
                        k.files@,
                        id,
                    ),
                _ => mid.procs.table@[id as int].inner.killed || e is Killed ==> can_exit(
                    mid.procs,
                    mid.kmem@,
                    mid.files@,
                    id,
                ),
            }
    }

    /// What is made of the trap of process `id`, from `self` to `new`.
    pub open spec fn trapped(
        self,
        id: usize,
        trap: Trap,
        sepc: u64,
        stval: u64,
        device: Option<InterruptType>,
        new: Kernel,
        l: Leave,
        message: Option<Message>,
    ) -> bool {
        exists|mid: Kernel, e: Entry|
            {
                &&& #[trigger] self.entered(id, trap, sepc, stval, device, mid, e)
                &&& match e {
                    Entry::Killed => message is None && mid.left(id, None, new, l),
                    Entry::Handled(m) => message == m && mid.left(id, device, new, l),
                    Entry::Call => message is None && exists|k: Kernel, o: Outcome|
                        {
                            &&& #[trigger] mid.syscalled(id, 0, k, o)
                            &&& match o {
                                Outcome::Done(_) => k.left(id, None, new, l),
                                Outcome::Sleep(d, c) => l == Leave::Sleep(d, c) && new == k,
                                Outcome::Exited => l == Leave::Exited && new == k,
                                Outcome::Poweroff(c) => l == Leave::Poweroff(c) && new == k,
                            }
                        },
                }
            }
    }

    /// Handles an interrupt, exception, or system call from user space by process `id`. `scause`,
    /// `sepc` and `stval` are what the registers say; `device` says which kind of interrupt it
    /// was, if it is one that is handled. Returns how the kernel leaves the process, and what is
    /// to be said if it is killed.
    pub fn usertrap(
        &mut self,
        id: usize,
        sstatus: u64,
        trap: Trap,
        sepc: u64,
        stval: u64,
        device: Option<InterruptType>,
    ) -> (r: (Leave, Option<Message>))
        requires
            sstatus & SPP == 0,
            old(self).can_trap(id, trap, sepc, stval, device),
        ensures
            old(self).trapped(id, trap, sepc, stval, device, *final(self), r.0, r.1),
            final(self).procs.wf() && final(self).kmem.wf() && final(self).files.wf(),
    {
        let ghost k0 = *self;
        let entry = self.enter(id, trap, sepc, stval, device);
        let ghost mid = *self;
        assert(k0.entered(id, trap, sepc, stval, device, mid, entry));
        match entry {
            Entry::Killed => {
                let l = self.leave(id, None);
                (l, None)
            },
            Entry::Handled(message) => {
                let l = self.leave(id, device);
                (l, message)
            },
            Entry::Call => {
                assert(mid.can_syscall(id, 0));
                let o = self.syscall(id, 0);
                let ghost k = *self;
                assert(mid.syscalled(id, 0, k, o));
                match o {
                    Outcome::Done(_) => {
                        let l = self.leave(id, None);
                        (l, None)
                    },
                    Outcome::Sleep(d, c) => (Leave::Sleep(d, c), None),
                    Outcome::Exited => (Leave::Exited, None),
                    Outcome::Poweroff(c) => (Leave::Poweroff(c), None),
                }
            },
        }
    }
}

impl Kernel {
    /// Process `id` goes on after it was woken up, from `self` to `new`: it sleeps on no channel any
    /// more.
    pub open spec fn awoken(self, id: usize, new: Kernel) -> bool {
        &&& new.kmem == self.kmem && new.files == self.files && new.ticks == self.ticks
        &&& new.code == self.code && new.kvm == self.kvm
        &&& self.procs.same_but_inner(new.procs)
        &&& new.procs.inner() == self.procs.inner().update(
            id as int,
            ProcInner { channel: None, ..self.procs.table@[id as int].inner },
        )
    }

    /// Process `id` can go on in its system call from `done`.
    pub open spec fn can_resume(self, id: usize, done: u64) -> bool {
        &&& self.wf()
        &&& id < NPROC
        &&& forall|mid: Kernel| #[trigger]
            self.awoken(id, mid) ==> {
                &&& mid.can_syscall(id, done)
                &&& forall|k: Kernel, o: Outcome|
                    #[trigger] mid.syscalled(id, done, k, o) && o is Done
                        && k.procs.table@[id as int].inner.killed ==> can_exit(
                        k.procs,
                        k.kmem@,
                        k.files@,
                        id,
                    )
            }
    }

    /// What comes of a process that goes on in its system call, from `self` to `new`.
    pub open spec fn resumed(self, id: usize, done: u64, new: Kernel, l: Leave) -> bool {
        exists|mid: Kernel, k: Kernel, o: Outcome|
            {
                &&& self.awoken(id, mid)
                &&& #[trigger] mid.syscalled(id, done, k, o)
                &&& match o {
                    Outcome::Done(_) => k.left(id, None, new, l),
                    Outcome::Sleep(d, c) => l == Leave::Sleep(d, c) && new == k,
                    Outcome::Exited => l == Leave::Exited && new == k,
                    Outcome::Poweroff(c) => l == Leave::Poweroff(c) && new == k,
                }
            }
    }

    /// Lets process `id`, which was woken up in a system call, go on from `done`.
    pub fn resume(&mut self, id: usize, done: u64) -> (r: Leave)
        requires
            old(self).can_resume(id, done),
        ensures
            old(self).resumed(id, done, *final(self), r),
            final(self).procs.wf() && final(self).kmem.wf() && final(self).files.wf(),
    {
        let ghost k0 = *self;
        self.procs.resume(id);
        let ghost mid = *self;
        assert(k0.awoken(id, mid));
        let o = self.syscall(id, done);
        let ghost k = *self;
        assert(mid.syscalled(id, done, k, o));
        match o {
            Outcome::Done(_) => self.leave(id, None),
            Outcome::Sleep(d, c) => Leave::Sleep(d, c),
            Outcome::Exited => Leave::Exited,
            Outcome::Poweroff(c) => Leave::Poweroff(c),
        }
    }
}

/// What is needed to return to user space.
#[derive(Debug, Clone, Copy)]
pub struct UserReturn {
    /// Where the next trap goes
    pub stvec: u64,
    /// The new status
    pub sstatus: u64,
    /// Where the process goes on
    pub sepc: u64,
    /// The page table of the process
    pub satp: u64,
    /// The code on the way to user space
    pub userret: u64,
}

/// Where kernel code is that is needed to return to user space.
#[derive(Debug, Clone, Copy)]
pub struct TrapCode {
    pub trampoline: u64,
    pub uservec: u64,
    pub userret: u64,
    pub usertrap: u64,
}

/// Prepares the return of a process to user space: fills in its trap frame what the next trap
/// needs, and returns what the registers are to hold.
pub fn usertrapret(data: &mut ProcData, code: TrapCode, satp: u64, hart: u64, sstatus: u64) -> (r: UserReturn)
    requires
        old(data).trapframe is Some,
        old(data).pagetable is Some,
        old(data).kstack.0 + NKSTACK_PAGES * PGSIZE <= u64::MAX,
        code.trampoline <= code.uservec < code.trampoline + PGSIZE,
        code.trampoline <= code.userret < code.trampoline + PGSIZE,
    ensures
        r.stvec == TRAMPOLINE + (code.uservec - code.trampoline),
        r.userret == TRAMPOLINE + (code.userret - code.trampoline),
        r.sstatus == (sstatus & !SPP) | SPIE,
        r.sepc == old(data).trapframe->0.frame.epc,
        r.satp == SV39 | ((old(data).pagetable->0).0.root >> 12),
        *final(data) == (ProcData {
            trapframe: Some(
                TrapPage {
                    frame: TrapFrame {
                        kernel_satp: satp,
                        kernel_sp: (old(data).kstack.0 + NKSTACK_PAGES * PGSIZE) as u64,
                        kernel_trap: code.usertrap,
                        kernel_hartid: hart,
                        ..old(data).trapframe->0.frame
                    },
                    ..old(data).trapframe->0
                },
            ),
            ..*old(data)
        }),
{
    let stvec = TRAMPOLINE + (code.uservec - code.trampoline);
    let userret = TRAMPOLINE + (code.userret - code.trampoline);
    let kernel_sp = data.kstack.0 + NKSTACK_PAGES as u64 * PGSIZE;
    let user_satp = make(data.pagetable().0.as_pa().0);
    // set up trapframe values that uservec will need when the process next traps into the kernel.
    let frame = data.trapframe_mut();
    frame.kernel_satp = satp;  // kernel page table
    frame.kernel_sp = kernel_sp;  // process's kernel stack
    frame.kernel_trap = code.usertrap;
    frame.kernel_hartid = hart;
    let sepc = frame.epc;
    // clear SPP to 0 for user mode, enable interrupts in user mode
    UserReturn { stvec, sstatus: (sstatus & !SPP) | SPIE, sepc, satp: user_satp, userret }
}

/// Interrupts from kernel code: one that is not handled, or an exception, is fatal. Returns
/// whether the process that runs, if there is one, is to give up the CPU.
pub fn kerneltrap(sstatus: u64, interrupts: bool, trap: Trap, device: Option<InterruptType>, running: bool) -> (r: bool)
    requires
        sstatus & SPP != 0,
        !interrupts,
        trap is Interrupt,
        device is Some,
    ensures
        r == (device == Some(InterruptType::Timer) && running),
{
    match device {
        Some(InterruptType::Timer) => running,
        _ => false,
    }
}

/// An interrupt that is handled can be taken at any time: whatever the kernel is like, a process
/// that was not killed goes on after it.
pub proof fn law_interrupt_ready(
    kernel: Kernel,
    id: usize,
    interrupt: Interrupt,
    sepc: u64,
    stval: u64,
    device: InterruptType,
)
    requires
        kernel.wf(),
        id < NPROC,
        kernel.procs.table@[id as int].data.trapframe is Some,
        !kernel.procs.table@[id as int].inner.killed,
    ensures
        kernel.can_trap(id, Trap::Interrupt(interrupt), sepc, stval, Some(device)),
{
}

/// The calls that can be made in any state of the kernel: those that need neither files nor a change
/// of memory, a call that there is not, permitting to write a page of the process, and asking for more memory
/// or giving some back.
pub proof fn law_call_ready(kernel: Kernel, id: usize)
    requires
        kernel.wf(),
        id < NPROC,
        kernel.procs.table@[id as int].data.trapframe is Some,
        kernel.procs.table@[id as int].data.ready(kernel.kmem@),
        kernel.procs.table@[id as int].data.open_files@.len() == NOFILE,
        ({
            let d = kernel.procs.table@[id as int].data;
            let frame = d.trapframe->0.frame;
            let n = frame.a0 as i64;
            match Syscall::of(frame.a7) {
                Err(_) => true,
                Ok(sys) => match sys {
                    Syscall::Kill
                    | Syscall::Getpid
                    | Syscall::Uptime
                    | Syscall::Getusedmem
                    | Syscall::Poweroff => true,
                    Syscall::Sleep => kernel.ticks < u64::MAX,
                    Syscall::Sbrk => if n >= 0 {
                        d.size + n <= u64::MAX - 2 * PGSIZE
                    } else {
                        n > i64::MIN && d.size <= UPAGES * PGSIZE
                    },
                    Syscall::Munprotect => (frame.a0 as int) / (PGSIZE as int) < UPAGES,
                    _ => false,
                },
            }
        }),
    ensures
        kernel.can_syscall(id, 0),
{
    let d = kernel.procs.table@[id as int].data;
    let frame = d.trapframe->0.frame;
    if let Ok(sys) = Syscall::of(frame.a7) {
        assert forall|args: SyscallArgs|
            args.frame() == frame implies #[trigger] kernel.can_call(id, sys, args, 0) by {
            reveal(can_data_call);
            assert(args.arg(0) == frame.a0);
            if sys == Syscall::Munprotect {
                let page = d.mem(kernel.kmem@).pages[args.arg(0) as int / (PGSIZE as int)];
                let flags = page.flags;
                assert((flags | 4) & (8u64 | 4 | 2) != 0) by (bit_vector);
            }
        }
    }
}

/// A call that only asks for something, and one that there is not, can be made by a trap in any state
/// of the kernel.
pub proof fn law_question_ready(
    kernel: Kernel,
    id: usize,
    sepc: u64,
    stval: u64,
    device: Option<InterruptType>,
)
    requires
        kernel.wf(),
        id < NPROC,
        kernel.procs.table@[id as int].data.trapframe is Some,
        !kernel.procs.table@[id as int].inner.killed,
        sepc + 4 <= u64::MAX,
        Syscall::of(kernel.procs.table@[id as int].data.trapframe->0.frame.a7) matches Ok(sys)
            ==> sys == Syscall::Getpid || sys == Syscall::Uptime || sys == Syscall::Getusedmem,
    ensures
        kernel.can_trap(
            id,
            Trap::Exception(Exception::EnvironmentCall),
            sepc,
            stval,
            device,
        ),
{
    let trap = Trap::Exception(Exception::EnvironmentCall);
    let frame = kernel.procs.table@[id as int].data.trapframe->0.frame;
    assert forall|mid: Kernel, e: Entry| #[trigger]
        kernel.entered(id, trap, sepc, stval, device, mid, e) implies e == Entry::Call
        && mid.can_syscall(id, 0) && forall|k: Kernel, o: Outcome|
        #[trigger] mid.syscalled(id, 0, k, o) ==> !k.procs.table@[id as int].inner.killed by {
        let p = mid.procs.table@[id as int];
        assert(p.data.trapframe->0.frame.a7 == frame.a7);
        assert(mid.procs.table@.len() == NPROC);
        assert(mid.procs.wf()) by {
            assert forall|i: int| 0 <= i < NPROC implies (#[trigger] mid.procs.table@[i]).id == i by {
                if i != id {
                    assert(mid.procs.table@[i] == kernel.procs.table@[i]);
                }
            }
        }
    }
}

} // verus!
