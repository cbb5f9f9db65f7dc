//! Processes.
use vstd::prelude::*;
use crate::file::File;
use crate::fs::Inode;
use crate::param::{NCPU, NOFILE};
use crate::vm::{Uvm, VA};

pub mod boot;
pub mod call_laws;
pub mod exit;
pub mod fork;
pub mod laws;
pub mod life;
pub mod order;
pub mod table;
pub mod traps;
pub mod user;
pub mod wait;

pub use exit::exit;
pub use fork::{fork, grow};
pub use life::Code;
pub use table::ProcTable;
pub use user::{copy_from_user, copy_to_user};
pub use wait::{wait, Waited};

verus! {

/// What a process sleeps on, and is woken up by.
#[derive(Debug, Clone, Copy, PartialEq, Eq, Structural)]
pub enum Channel {
    /// A process slot, for `wait`.
    Proc(usize),
    /// System ticks
    Ticks,
    /// I/O buffer
    Buffer(usize),
    /// Lock
    Lock(usize),
    /// Log
    Log,
    /// Read end of pipe.
    PipeRead(u64),
    /// Write end of pipe.
    PipeWrite(u64),
}

/// Per-CPU state
#[derive(Debug)]
pub struct Cpu {
    /// The process that runs, by its index in the process table
    pub proc: Option<usize>,
    pub context: Context,
    /// How many locks are held that keep interrupts off
    pub num_off: u64,
    /// Whether interrupts were on before the first of them
    pub interrupts_enabled: bool,
}

impl Cpu {
    pub fn new() -> (r: Self)
        ensures
            r.proc is None,
            r.context == Context::zeroed(),
            r.num_off == 0,
            !r.interrupts_enabled,
    {
        Cpu { proc: None, context: Context::new(), num_off: 0, interrupts_enabled: false }
    }

    /// Locks this CPU. Interrupts have been disabled; `old_state` says whether they were on.
    pub fn lock(&mut self, old_state: bool)
        requires
            old(self).num_off < u64::MAX,
        ensures
            final(self).num_off == old(self).num_off + 1,
            final(self).interrupts_enabled == (if old(self).num_off == 0 {
                old_state
            } else {
                old(self).interrupts_enabled
            }),
            final(self).proc == old(self).proc,
            final(self).context == old(self).context,
    {
        if self.num_off == 0 {
            self.interrupts_enabled = old_state;
        }
        self.num_off = self.num_off + 1;
    }

    /// Whether the CPU may switch to its scheduler: interrupts are disabled, there are no nested
    /// locks, and the process `inner` is not running.
    pub open spec fn can_sched(self, inner: ProcInner, interrupts: bool) -> bool {
        self.num_off == 1 && inner.state != ProcState::Running && !interrupts
    }

    /// Before the CPU switches to its scheduler: what is to be kept for when the process runs
    /// again, maybe on another CPU.
    pub fn sched(&self, inner: &ProcInner, interrupts: bool) -> (r: bool)
        requires
            self.can_sched(*inner, interrupts),
        ensures
            r == self.interrupts_enabled,
    {
        self.interrupts_enabled
    }

    /// After the CPU switched back to a process: what was kept for it is put back.
    pub fn resched(&mut self, interrupts_enabled: bool)
        ensures
            *final(self) == (Cpu { interrupts_enabled, ..*old(self) }),
    {
        self.interrupts_enabled = interrupts_enabled;
    }

    /// Unlocks this CPU, with interrupts off. Returns whether they are to be enabled.
    pub fn unlock(&mut self) -> (r: bool)
        requires
            old(self).num_off >= 1,
        ensures
            final(self).num_off == old(self).num_off - 1,
            final(self).interrupts_enabled == old(self).interrupts_enabled,
            final(self).proc == old(self).proc,
            final(self).context == old(self).context,
            r == (old(self).num_off == 1 && old(self).interrupts_enabled),
    {
        self.num_off = self.num_off - 1;
        self.num_off == 0 && self.interrupts_enabled
    }
}

/// Table of CPUs
#[derive(Debug)]
pub struct CpuTable(pub Vec<Cpu>);

impl CpuTable {
    /// Creates a new CPU table.
    pub fn new() -> (r: Self)
        ensures
            r.0@.len() == NCPU,
            forall|i: int|
                0 <= i < NCPU ==> (#[trigger] r.0@[i]).proc is None && r.0@[i].num_off == 0
                    && r.0@[i].context == Context::zeroed() && !r.0@[i].interrupts_enabled,
    {
        let mut cpus: Vec<Cpu> = Vec::new();
        let mut i: usize = 0;
        while i < NCPU
            invariant
                i <= NCPU,
                cpus@.len() == i,
                forall|j: int|
                    0 <= j < i ==> (#[trigger] cpus@[j]).proc is None && cpus@[j].num_off == 0
                        && cpus@[j].context == Context::zeroed() && !cpus@[j].interrupts_enabled,
            decreases NCPU - i,
        {
            cpus.push(Cpu::new());
            i += 1;
        }
        CpuTable(cpus)
    }
}

/// Saved registers for kernel context switches.
#[derive(Debug, Clone, Copy, PartialEq, Eq, Structural)]
pub struct Context {
    pub ra: u64,
    pub sp: u64,
    pub s0: u64,
    pub s1: u64,
    pub s2: u64,
    pub s3: u64,
    pub s4: u64,
    pub s5: u64,
    pub s6: u64,
    pub s7: u64,
    pub s8: u64,
    pub s9: u64,
    pub s10: u64,
    pub s11: u64,
}

impl Context {
    /// All registers zero.
    pub open spec fn zeroed() -> Context {
        Context {
            ra: 0,
            sp: 0,
            s0: 0,
            s1: 0,
            s2: 0,
            s3: 0,
            s4: 0,
            s5: 0,
            s6: 0,
            s7: 0,
            s8: 0,
            s9: 0,
            s10: 0,
            s11: 0,
        }
    }

    pub fn new() -> (r: Self)
        ensures
            r == Self::zeroed(),
    {
        Context {
            ra: 0,
            sp: 0,
            s0: 0,
            s1: 0,
            s2: 0,
            s3: 0,
            s4: 0,
            s5: 0,
            s6: 0,
            s7: 0,
            s8: 0,
            s9: 0,
            s10: 0,
            s11: 0,
        }
    }

    pub fn zero(&mut self)
        ensures
            *final(self) == Self::zeroed(),
    {
        *self = Context::new();
    }
}

/// Per-process data for the trap handling code.
/// Sits in a page by itself just under the trampoline page in the user page table. On a trap the
/// user registers are saved here, and the kernel's stack, hart and page table are taken from here;
/// on the way back the user registers are restored.
#[derive(Debug, Clone, Copy, PartialEq, Eq, Structural)]
pub struct TrapFrame {
    /// kernel page table
    pub kernel_satp: u64,
    /// top of process's kernel stack
    pub kernel_sp: u64,
    /// usertrap()
    pub kernel_trap: u64,
    /// saved user program counter
    pub epc: u64,
    /// saved kernel tp
    pub kernel_hartid: u64,
    pub ra: u64,
    pub sp: u64,
    pub gp: u64,
    pub tp: u64,
    pub t0: u64,
    pub t1: u64,
    pub t2: u64,
    pub s0: u64,
    pub s1: u64,
    pub a0: u64,
    pub a1: u64,
    pub a2: u64,
    pub a3: u64,
    pub a4: u64,
    pub a5: u64,
    pub a6: u64,
    pub a7: u64,
    pub s2: u64,
    pub s3: u64,
    pub s4: u64,
    pub s5: u64,
    pub s6: u64,
    pub s7: u64,
    pub s8: u64,
    pub s9: u64,
    pub s10: u64,
    pub s11: u64,
    pub t3: u64,
    pub t4: u64,
    pub t5: u64,
    pub t6: u64,
}

impl TrapFrame {
    /// All registers zero.
    pub open spec fn zeroed() -> TrapFrame {
        TrapFrame {
            kernel_satp: 0,
            kernel_sp: 0,
            kernel_trap: 0,
            epc: 0,
            kernel_hartid: 0,
            ra: 0,
            sp: 0,
            gp: 0,
            tp: 0,
            t0: 0,
            t1: 0,
            t2: 0,
            s0: 0,
            s1: 0,
            a0: 0,
            a1: 0,
            a2: 0,
            a3: 0,
            a4: 0,
            a5: 0,
            a6: 0,
            a7: 0,
            s2: 0,
            s3: 0,
            s4: 0,
            s5: 0,
            s6: 0,
            s7: 0,
            s8: 0,
            s9: 0,
            s10: 0,
            s11: 0,
            t3: 0,
            t4: 0,
            t5: 0,
            t6: 0,
        }
    }

    pub fn new() -> (r: Self)
        ensures
            r == Self::zeroed(),
    {
        TrapFrame {
            kernel_satp: 0,
            kernel_sp: 0,
            kernel_trap: 0,
            epc: 0,
            kernel_hartid: 0,
            ra: 0,
            sp: 0,
            gp: 0,
            tp: 0,
            t0: 0,
            t1: 0,
            t2: 0,
            s0: 0,
            s1: 0,
            a0: 0,
            a1: 0,
            a2: 0,
            a3: 0,
            a4: 0,
            a5: 0,
            a6: 0,
            a7: 0,
            s2: 0,
            s3: 0,
            s4: 0,
            s5: 0,
            s6: 0,
            s7: 0,
            s8: 0,
            s9: 0,
            s10: 0,
            s11: 0,
            t3: 0,
            t4: 0,
            t5: 0,
            t6: 0,
        }
    }
}

/// Process ID.
/// It must be created using `Pid::allocate()` to ensure uniqueness.
#[derive(Debug, Clone, Copy, PartialEq, Eq, Structural)]
pub struct Pid(pub u64);

impl Pid {
    /// Allocates a new PID by incrementing a counter.
    pub fn allocate(count: &mut u64) -> (r: Self)
        requires
            *old(count) < u64::MAX,
        ensures
            r.0 == *old(count),
            *final(count) == *old(count) + 1,
    {
        let pid = Pid(*count);
        *count = *count + 1;
        pid
    }

    /// Creates a PID from a number that has been allocated.
    pub fn from_u64(value: u64) -> (r: Self)
        ensures
            r.0 == value,
    {
        Pid(value)
    }
}

/// The state of a process.
#[derive(Debug, Clone, Copy, PartialEq, Eq, Structural)]
pub enum ProcState {
    Unused,
    Used,
    Sleeping,
    Runnable,
    Running,
    Zombie,
}

/// Public fields for Proc
#[derive(Debug, Clone, Copy)]
pub struct ProcInner {
    /// Process state
    pub state: ProcState,
    /// If Some, sleeping on chan
    pub channel: Option<Channel>,
    /// If true, have been killed
    pub killed: bool,
    /// Exit status to be returned to parent's wait
    pub xstate: i64,
    /// Process ID
    pub pid: Pid,
}

impl ProcInner {
    /// A slot that is not in use.
    pub open spec fn unused() -> ProcInner {
        ProcInner {
            state: ProcState::Unused,
            channel: None,
            killed: false,
            xstate: 0,
            pid: Pid(0),
        }
    }

    pub fn new() -> (r: Self)
        ensures
            r == Self::unused(),
    {
        ProcInner {
            state: ProcState::Unused,
            channel: None,
            killed: false,
            xstate: 0,
            pid: Pid(0),
        }
    }
}

/// The trap frame of a process and the page that it is in.
#[derive(Debug, Clone, Copy)]
pub struct TrapPage {
    pub pa: u64,
    pub frame: TrapFrame,
}

/// Private fields for Proc
pub struct ProcData {
    /// Virtual address of kernel stack
    pub kstack: VA,
    /// Size of process memory (bytes)
    pub size: u64,
    /// User page table
    pub pagetable: Option<Uvm>,
    /// Data page for trampoline
    pub trapframe: Option<TrapPage>,
    /// Where to switch to, to run the process
    pub context: Context,
    /// Open files
    pub open_files: Vec<Option<File>>,
    /// Current directory
    pub cwd: Inode,
    /// Process name
    pub name: Vec<u8>,
}

impl ProcData {
    pub fn new() -> (r: Self)
        ensures
            r.kstack.0 == 0,
            r.size == 0,
            r.pagetable is None,
            r.trapframe is None,
            r.context == Context::zeroed(),
            r.open_files@ == Seq::new(NOFILE as nat, |i: int| None::<File>),
            r.cwd == (Inode { id: 0, dev: 0, inum: 0 }),
            r.name@.len() == 0,
    {
        let mut open_files: Vec<Option<File>> = Vec::new();
        let mut i: usize = 0;
        while i < NOFILE
            invariant
                i <= NOFILE,
                open_files@ == Seq::new(i as nat, |i: int| None::<File>),
            decreases NOFILE - i,
        {
            open_files.push(None);
            i += 1;
            assert(open_files@ =~= Seq::new(i as nat, |i: int| None::<File>));
        }
        ProcData {
            kstack: VA(0),
            size: 0,
            pagetable: None,
            trapframe: None,
            context: Context::new(),
            open_files,
            cwd: Inode { id: 0, dev: 0, inum: 0 },
            name: Vec::new(),
        }
    }

    /// Returns a reference to the trapframe.
    pub fn trapframe(&self) -> (r: &TrapFrame)
        requires
            self.trapframe is Some,
        ensures
            *r == self.trapframe->0.frame,
    {
        &self.trapframe.as_ref().unwrap().frame
    }

    /// Returns a mutable reference to the trapframe.
    pub fn trapframe_mut(&mut self) -> (r: &mut TrapFrame)
        requires
            old(self).trapframe is Some,
        ensures
            *r == old(self).trapframe->0.frame,
            *final(self) == (ProcData {
                trapframe: Some(TrapPage { frame: *final(r), ..old(self).trapframe->0 }),
                ..*old(self)
            }),
    {
        &mut self.trapframe.as_mut().unwrap().frame
    }

    /// Returns a mutable reference to the user page table.
    pub fn pagetable_mut(&mut self) -> (r: &mut Uvm)
        requires
            old(self).pagetable is Some,
        ensures
            *r == old(self).pagetable->0,
            *final(self) == (ProcData { pagetable: Some(*final(r)), ..*old(self) }),
    {
        self.pagetable.as_mut().unwrap()
    }

    /// Returns a reference to the user page table.
    pub fn pagetable(&self) -> (r: &Uvm)
        requires
            self.pagetable is Some,
        ensures
            *r == self.pagetable->0,
    {
        self.pagetable.as_ref().unwrap()
    }

    /// Returns a mutable reference to both the pagetable and trapframe.
    pub fn pagetable_and_trapframe_mut(&mut self) -> (r: (&mut Uvm, &mut TrapFrame))
        requires
            old(self).pagetable is Some,
            old(self).trapframe is Some,
        ensures
            *r.0 == old(self).pagetable->0,
            *r.1 == old(self).trapframe->0.frame,
            *final(self) == (ProcData {
                pagetable: Some(*final(r.0)),
                trapframe: Some(
                    TrapPage { frame: *final(r.1), ..old(self).trapframe->0 },
                ),
                ..*old(self)
            }),
    {
        (self.pagetable.as_mut().unwrap(), &mut self.trapframe.as_mut().unwrap().frame)
    }
}

/// Process control block
pub struct Proc {
    /// NOT `Pid`. Used for indexing in the process table and matching parent-child relationships.
    pub id: usize,
    pub inner: ProcInner,
    pub data: ProcData,
}

impl Proc {
    pub fn new(id: usize) -> (r: Self)
        ensures
            r.id == id,
            r.inner == ProcInner::unused(),
            r.data.pagetable is None,
            r.data.trapframe is None,
            r.data.size == 0,
            r.data.open_files@ == Seq::new(NOFILE as nat, |i: int| None::<File>),
    {
        Proc { id, inner: ProcInner::new(), data: ProcData::new() }
    }

    /// Returns true if this process has been killed.
    pub fn is_killed(&self) -> (r: bool)
        ensures
            r == self.inner.killed,
    {
        self.inner.killed
    }

    /// Returns true if this process is the init process, whose index is `init`.
    pub fn is_init_proc(&self, init: usize) -> (r: bool)
        ensures
            r == (self.id == init),
    {
        self.id == init
    }
}

} // verus!
