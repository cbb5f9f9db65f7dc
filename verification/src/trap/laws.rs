//! What a process sees of its traps.
use vstd::prelude::*;
use crate::param::NPROC;
use crate::proc::laws::lemma_exited_self;
use crate::proc::{ProcInner, ProcState};
use crate::riscv::{Exception, Interrupt, Trap, PGSIZE, PTE_COW, PTE_R, PTE_W};
use crate::syscall::dispatch::{Kernel, Outcome};
use crate::trap::{Entry, InterruptType, Leave, Message};
use crate::vm::bytes::law_lazy_page;
use crate::vm::flag;
use crate::vm::laws::{law_copy_on_write, lemma_page_flags};
use crate::vm::usermem::{UserMem, UPAGES};

verus! {

/// A load, a store or the fetch of an instruction at an address that cannot be used so.
pub open spec fn memory_exception(x: Exception) -> bool {
    ||| x == Exception::LoadPageFault
    ||| x == Exception::StorePageFault
    ||| x == Exception::InstructionPageFault
    ||| x == Exception::LoadAccessFault
    ||| x == Exception::StoreAccessFault
    ||| x == Exception::InstructionAccessFault
}

impl Kernel {
    /// The memory of process `id`.
    pub open spec fn mem_of(self, id: usize) -> UserMem {
        self.procs.table@[id as int].data.mem(self.kmem@)
    }

    /// Process `id` is as it was, and so is all else but its memory: it goes on at `epc`.
    pub open spec fn goes_on(self, id: usize, new: Kernel, epc: u64) -> bool {
        let p = self.procs.table@[id as int];
        let q = new.procs.table@[id as int];
        &&& q.inner == p.inner
        &&& q.data.trapframe is Some
        &&& q.data.trapframe->0.frame == (crate::proc::TrapFrame {
            epc,
            ..p.data.trapframe->0.frame
        })
        &&& q.data.size == p.data.size
        &&& q.data.open_files == p.data.open_files
        &&& q.data.cwd == p.data.cwd
        &&& new.files == self.files
        &&& new.ticks == self.ticks
        &&& forall|j: int|
            0 <= j < NPROC && j != id ==> (#[trigger] new.procs.table@[j]).data
                == self.procs.table@[j].data && new.procs.table@[j].inner
                == self.procs.table@[j].inner
    }
}

/// What becomes of a memory exception that could be dealt with: the process goes on where it was.
proof fn lemma_fault_handled(
    kernel: Kernel,
    id: usize,
    x: Exception,
    sepc: u64,
    stval: u64,
    new: Kernel,
    l: Leave,
    message: Option<Message>,
)
    requires
        kernel.procs.wf(),
        id < NPROC,
        kernel.procs.table@[id as int].data.trapframe is Some,
        !kernel.procs.table@[id as int].inner.killed,
        memory_exception(x),
        kernel.trapped(id, Trap::Exception(x), sepc, stval, None, new, l, message),
        (kernel.mem_of(id).fault(
            kernel.procs.table@[id as int].data.size as int,
            stval as int,
        )->0).1 is Ok,
    ensures
        l == (Leave::Return { turn: false }),
        message is None,
        kernel.goes_on(id, new, sepc),
        new.mem_of(id) == (kernel.mem_of(id).fault(
            kernel.procs.table@[id as int].data.size as int,
            stval as int,
        )->0).0,
{
    let trap = Trap::Exception(x);
    let (mid, e) = choose|mid: Kernel, e: Entry|
        {
            &&& #[trigger] kernel.entered(id, trap, sepc, stval, None, mid, e)
            &&& match e {
                Entry::Killed => message is None && mid.left(id, None, new, l),
                Entry::Handled(m) => message == m && mid.left(id, None, new, l),
                Entry::Call => message is None && exists|k: Kernel, o: Outcome|
                    {
                        &&& #[trigger] mid.syscalled(id, 0, k, o)
                        &&& match o {
                            Outcome::Done(_) => k.left(id, None, new, l),
                            Outcome::Sleep(d, c) => l == Leave::Sleep(d, c) && new == k,
                            Outcome::Exited => l == Leave::Exited && new == k,
                            Outcome::Poweroff(c) => l == Leave::Poweroff(c) && new == k,
                        }
                    },
            }
        };
    assert(mid.procs.table@.len() == NPROC);
    let me = mid.procs.table@[id as int].inner;
    assert(new.procs.inner()[id as int] == (ProcInner { state: me.state, ..me }));
    assert forall|j: int| 0 <= j < NPROC && j != id implies (#[trigger] new.procs.table@[j]).data
        == kernel.procs.table@[j].data && new.procs.table@[j].inner
        == kernel.procs.table@[j].inner by {
        assert(mid.procs.table@[j] == kernel.procs.table@[j]);
        assert(new.procs.inner()[j] == mid.procs.inner()[j]);
    }
}

/// Memory that a process asked for is there when it is first used: whether it loads from it, stores
/// to it or executes it, the trap leaves the process alive, which goes on with the instruction that
/// trapped, and there is a page of zeros that it can read and write. No other page changes.
pub proof fn law_lazy_fault(
    kernel: Kernel,
    id: usize,
    x: Exception,
    sepc: u64,
    stval: u64,
    new: Kernel,
    l: Leave,
    message: Option<Message>,
)
    requires
        kernel.procs.wf(),
        id < NPROC,
        kernel.procs.table@[id as int].data.trapframe is Some,
        !kernel.procs.table@[id as int].inner.killed,
        memory_exception(x),
        kernel.trapped(id, Trap::Exception(x), sepc, stval, None, new, l, message),
        PGSIZE <= stval < kernel.procs.table@[id as int].data.size,
        stval as int / (PGSIZE as int) < UPAGES,
        !kernel.mem_of(id).pages.contains_key(stval as int / (PGSIZE as int)),
        kernel.mem_of(id).left >= 3,
    ensures
        l == (Leave::Return { turn: false }),
        message is None,
        kernel.goes_on(id, new, sepc),
        ({
            let n = stval as int / (PGSIZE as int);
            let page = new.mem_of(id).pages[n];
            &&& new.mem_of(id).user(n)
            &&& flag(page.flags, PTE_R) && flag(page.flags, PTE_W)
            &&& page.data == Seq::new(PGSIZE as nat, |i: int| 0u8)
            &&& new.mem_of(id).pages.remove(n) == kernel.mem_of(id).pages
        }),
{
    let size = kernel.procs.table@[id as int].data.size as int;
    law_lazy_page(kernel.mem_of(id), size, stval as int);
    lemma_fault_handled(kernel, id, x, sepc, stval, new, l, message);
}

/// A page that is shared since a fork is copied when it is written: the process goes on with the
/// instruction that trapped, and the page holds the same bytes, is its own and can be written.
pub proof fn law_copy_fault(
    kernel: Kernel,
    id: usize,
    x: Exception,
    sepc: u64,
    stval: u64,
    new: Kernel,
    l: Leave,
    message: Option<Message>,
)
    requires
        kernel.procs.wf(),
        id < NPROC,
        kernel.procs.table@[id as int].data.trapframe is Some,
        !kernel.procs.table@[id as int].inner.killed,
        memory_exception(x),
        kernel.trapped(id, Trap::Exception(x), sepc, stval, None, new, l, message),
        PGSIZE <= stval < kernel.procs.table@[id as int].data.size,
        stval as int / (PGSIZE as int) < UPAGES,
        kernel.mem_of(id).user(stval as int / (PGSIZE as int)),
        flag(kernel.mem_of(id).pages[stval as int / (PGSIZE as int)].flags, PTE_COW),
        kernel.mem_of(id).left > 0,
    ensures
        l == (Leave::Return { turn: false }),
        message is None,
        kernel.goes_on(id, new, sepc),
        ({
            let n = stval as int / (PGSIZE as int);
            let page = new.mem_of(id).pages[n];
            &&& new.mem_of(id).user(n)
            &&& flag(page.flags, PTE_W) && !flag(page.flags, PTE_COW)
            &&& page.data == kernel.mem_of(id).pages[n].data
            &&& page.refs == 1
            &&& new.mem_of(id).pages.remove(n) == kernel.mem_of(id).pages.remove(n)
        }),
{
    let size = kernel.procs.table@[id as int].data.size as int;
    law_copy_on_write(kernel.mem_of(id), size, stval as int);
    let f = kernel.mem_of(id).pages[stval as int / (PGSIZE as int)].flags;
    lemma_page_flags(f);
    lemma_fault_handled(kernel, id, x, sepc, stval, new, l, message);
}

/// What comes of a trap that the process does not survive.
pub open spec fn dies(kernel: Kernel, id: usize, new: Kernel, l: Leave) -> bool {
    let q = new.procs.table@[id as int];
    &&& l == Leave::Exited
    &&& q.inner.state == ProcState::Zombie
    &&& q.inner.xstate == -1
    &&& q.inner.pid == kernel.procs.table@[id as int].inner.pid
    &&& q.inner.killed
}

proof fn lemma_struck(
    kernel: Kernel,
    id: usize,
    trap: Trap,
    sepc: u64,
    stval: u64,
    device: Option<InterruptType>,
    new: Kernel,
    l: Leave,
    message: Option<Message>,
    mid: Kernel,
    m: Option<Message>,
)
    requires
        kernel.procs.wf(),
        new.procs.table@.len() == NPROC,
        id < NPROC,
        kernel.entered(id, trap, sepc, stval, device, mid, Entry::Handled(m)),
        message == m,
        mid.left(id, device, new, l),
        mid.procs.table@[id as int].inner.killed,
        mid.procs.table@[id as int].inner.pid == kernel.procs.table@[id as int].inner.pid,
    ensures
        dies(kernel, id, new, l),
{
    lemma_exited_self(
        mid.procs,
        mid.kmem@,
        mid.files@,
        id,
        (-1) as i64,
        new.procs,
        new.kmem@,
        new.files@,
    );
}

/// A process that uses memory that it does not have is killed: at the first page, beyond its size,
/// or where there is a page that must not be used so. What is said tells a null pointer from other
/// errors.
pub proof fn law_bad_access(
    kernel: Kernel,
    id: usize,
    x: Exception,
    sepc: u64,
    stval: u64,
    new: Kernel,
    l: Leave,
    message: Option<Message>,
)
    requires
        kernel.procs.wf(),
        new.procs.table@.len() == NPROC,
        id < NPROC,
        memory_exception(x),
        kernel.trapped(id, Trap::Exception(x), sepc, stval, None, new, l, message),
        ({
            let n = stval as int / (PGSIZE as int);
            ||| stval < PGSIZE
            ||| stval >= kernel.procs.table@[id as int].data.size
            ||| kernel.mem_of(id).pages.contains_key(n) && !flag(
                kernel.mem_of(id).pages[n].flags,
                PTE_COW,
            )
        }),
    ensures
        dies(kernel, id, new, l),
        message == Some(
            if stval < PGSIZE {
                Message::Segfault
            } else {
                Message::PageFault
            },
        ),
{
    lemma_exception(kernel, id, x, sepc, stval, new, l, message);
}

/// What a trap for an exception that is no system call comes from.
proof fn lemma_exception(
    kernel: Kernel,
    id: usize,
    x: Exception,
    sepc: u64,
    stval: u64,
    new: Kernel,
    l: Leave,
    message: Option<Message>,
)
    requires
        kernel.procs.wf(),
        new.procs.table@.len() == NPROC,
        id < NPROC,
        x != Exception::EnvironmentCall,
        kernel.trapped(id, Trap::Exception(x), sepc, stval, None, new, l, message),
        memory_exception(x) ==> ({
            let n = stval as int / (PGSIZE as int);
            ||| stval < PGSIZE
            ||| stval >= kernel.procs.table@[id as int].data.size
            ||| kernel.mem_of(id).pages.contains_key(n) && !flag(
                kernel.mem_of(id).pages[n].flags,
                PTE_COW,
            )
        }),
    ensures
        dies(kernel, id, new, l),
        memory_exception(x) ==> message == Some(
            if stval < PGSIZE {
                Message::Segfault
            } else {
                Message::PageFault
            },
        ),
        !memory_exception(x) ==> message == Some(
            if x == Exception::IllegalInstruction {
                Message::Segfault
            } else {
                Message::Unexpected
            },
        ),
{
    let trap = Trap::Exception(x);
    let (mid, e) = choose|mid: Kernel, e: Entry|
        {
            &&& #[trigger] kernel.entered(id, trap, sepc, stval, None, mid, e)
            &&& match e {
                Entry::Killed => message is None && mid.left(id, None, new, l),
                Entry::Handled(m) => message == m && mid.left(id, None, new, l),
                Entry::Call => message is None && exists|k: Kernel, o: Outcome|
                    {
                        &&& #[trigger] mid.syscalled(id, 0, k, o)
                        &&& match o {
                            Outcome::Done(_) => k.left(id, None, new, l),
                            Outcome::Sleep(d, c) => l == Leave::Sleep(d, c) && new == k,
                            Outcome::Exited => l == Leave::Exited && new == k,
                            Outcome::Poweroff(c) => l == Leave::Poweroff(c) && new == k,
                        }
                    },
            }
        };
    assert(e is Handled);
    lemma_struck(
        kernel,
        id,
        trap,
        sepc,
        stval,
        None,
        new,
        l,
        message,
        mid,
        e->Handled_0,
    );
}

/// A process that does what nobody can do anything about is killed.
pub proof fn law_other_exception(
    kernel: Kernel,
    id: usize,
    x: Exception,
    sepc: u64,
    stval: u64,
    new: Kernel,
    l: Leave,
    message: Option<Message>,
)
    requires
        kernel.procs.wf(),
        new.procs.table@.len() == NPROC,
        id < NPROC,
        x != Exception::EnvironmentCall,
        !memory_exception(x),
        kernel.trapped(id, Trap::Exception(x), sepc, stval, None, new, l, message),
    ensures
        dies(kernel, id, new, l),
        message is Some,
        x == Exception::IllegalInstruction <==> message == Some(Message::Segfault),
{
    lemma_exception(kernel, id, x, sepc, stval, new, l, message);
}

/// A process sees nothing of an interrupt: it goes on where it was, with the same registers and
/// memory, at once or, if it was the timer's, when its turn comes again.
pub proof fn law_interrupt_unseen(
    kernel: Kernel,
    id: usize,
    interrupt: Interrupt,
    sepc: u64,
    stval: u64,
    device: InterruptType,
    new: Kernel,
    l: Leave,
    message: Option<Message>,
)
    requires
        kernel.procs.wf(),
        id < NPROC,
        kernel.procs.table@[id as int].data.trapframe is Some,
        !kernel.procs.table@[id as int].inner.killed,
        kernel.trapped(
            id,
            Trap::Interrupt(interrupt),
            sepc,
            stval,
            Some(device),
            new,
            l,
            message,
        ),
    ensures
        l == (Leave::Return { turn: device == InterruptType::Timer }),
        message is None,
        new.kmem == kernel.kmem && new.files == kernel.files,
        ({
            let p = kernel.procs.table@[id as int];
            let q = new.procs.table@[id as int];
            &&& q.data.pagetable == p.data.pagetable
            &&& q.data.size == p.data.size
            &&& q.data.trapframe->0.frame == (crate::proc::TrapFrame {
                epc: sepc,
                ..p.data.trapframe->0.frame
            })
            &&& !q.inner.killed
            &&& device == InterruptType::Timer ==> q.inner.state == ProcState::Runnable
        }),
{
    let trap = Trap::Interrupt(interrupt);
    let dev = Some(device);
    let (mid, e) = choose|mid: Kernel, e: Entry|
        {
            &&& #[trigger] kernel.entered(id, trap, sepc, stval, dev, mid, e)
            &&& match e {
                Entry::Killed => message is None && mid.left(id, None, new, l),
                Entry::Handled(m) => message == m && mid.left(id, dev, new, l),
                Entry::Call => message is None && exists|k: Kernel, o: Outcome|
                    {
                        &&& #[trigger] mid.syscalled(id, 0, k, o)
                        &&& match o {
                            Outcome::Done(_) => k.left(id, None, new, l),
                            Outcome::Sleep(d, c) => l == Leave::Sleep(d, c) && new == k,
                            Outcome::Exited => l == Leave::Exited && new == k,
                            Outcome::Poweroff(c) => l == Leave::Poweroff(c) && new == k,
                        }
                    },
            }
        };
    assert(mid.procs.table@.len() == NPROC);
    assert(new.procs.inner()[id as int] == new.procs.table@[id as int].inner);
}

/// A system call is made by the state in which the process goes on behind the instruction that
/// trapped, with all its registers: the call cannot see or do anything else.
pub proof fn law_call_goes_on(
    kernel: Kernel,
    id: usize,
    sepc: u64,
    stval: u64,
    new: Kernel,
    l: Leave,
    message: Option<Message>,
)
    requires
        kernel.procs.wf(),
        id < NPROC,
        sepc + 4 <= u64::MAX,
        kernel.procs.table@[id as int].data.trapframe is Some,
        !kernel.procs.table@[id as int].inner.killed,
        kernel.trapped(
            id,
            Trap::Exception(Exception::EnvironmentCall),
            sepc,
            stval,
            None,
            new,
            l,
            message,
        ),
    ensures
        message is None,
        exists|mid: Kernel, k: Kernel, o: Outcome|
            {
                &&& kernel.goes_on(id, mid, (sepc + 4) as u64)
                &&& mid.kmem == kernel.kmem
                &&& mid.procs.table@[id as int].data.pagetable
                    == kernel.procs.table@[id as int].data.pagetable
                &&& #[trigger] mid.syscalled(id, 0, k, o)
                &&& match o {
                    Outcome::Done(_) => k.left(id, None, new, l),
                    Outcome::Sleep(d, c) => l == Leave::Sleep(d, c) && new == k,
                    Outcome::Exited => l == Leave::Exited && new == k,
                    Outcome::Poweroff(c) => l == Leave::Poweroff(c) && new == k,
                }
            },
{
    let trap = Trap::Exception(Exception::EnvironmentCall);
    let (mid, e) = choose|mid: Kernel, e: Entry|
        {
            &&& #[trigger] kernel.entered(id, trap, sepc, stval, None, mid, e)
            &&& match e {
                Entry::Killed => message is None && mid.left(id, None, new, l),
                Entry::Handled(m) => message == m && mid.left(id, None, new, l),
                Entry::Call => message is None && exists|k: Kernel, o: Outcome|
                    {
                        &&& #[trigger] mid.syscalled(id, 0, k, o)
                        &&& match o {
                            Outcome::Done(_) => k.left(id, None, new, l),
                            Outcome::Sleep(d, c) => l == Leave::Sleep(d, c) && new == k,
                            Outcome::Exited => l == Leave::Exited && new == k,
                            Outcome::Poweroff(c) => l == Leave::Poweroff(c) && new == k,
                        }
                    },
            }
        };
    assert(e is Call);
    assert(kernel.goes_on(id, mid, (sepc + 4) as u64)) by {
        assert forall|j: int| 0 <= j < NPROC && j != id implies (
        #[trigger] mid.procs.table@[j]).data == kernel.procs.table@[j].data
            && mid.procs.table@[j].inner == kernel.procs.table@[j].inner by {
            assert(mid.procs.table@[j] == kernel.procs.table@[j]);
        }
    }
}

} // verus!
