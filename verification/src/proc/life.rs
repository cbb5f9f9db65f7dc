//! The life of a process: how it is made, and what is left of it.
use vstd::prelude::*;
use crate::error::KernelError;
use crate::kalloc::{page_ok, Kmem, KmemState};
use crate::param::{NKSTACK_PAGES, NPROC};
use crate::proc::table::ProcTable;
use crate::proc::{Context, Pid, Proc, ProcData, ProcInner, ProcState, TrapFrame, TrapPage};
use crate::riscv::{PGSIZE, PTE_V};
use crate::vm::usermem::{UserMem, MAXPAGES, UPAGES};
use crate::vm::uvm::Uvm;
use crate::vm::{flag, leaf, VmError};

verus! {

/// Where the kernel code is that processes are set up with.
#[derive(Debug, Clone, Copy)]
pub struct Code {
    /// The page with the code on the way between user space and kernel
    pub trampoline: u64,
    /// Where a new process starts in the kernel
    pub fork_ret: u64,
}

impl ProcData {
    /// From `k0` to `k1` the memory of the process and its trap frame were given back.
    pub open spec fn gone(self, k0: KmemState, k1: KmemState) -> bool {
        let k = match self.trapframe {
            Some(t) => k0.released(t.pa),
            None => k0,
        };
        match self.pagetable {
            Some(u) => u.all_freed(k, k1),
            None => k1 == k,
        }
    }

    /// What is left of `self` is `new`: no memory, no name.
    pub open spec fn emptied(self, new: ProcData) -> bool {
        &&& new.trapframe is None
        &&& new.pagetable is None
        &&& new.size == 0
        &&& new.name@ == Seq::<u8>::empty()
        &&& new.kstack == self.kstack
        &&& new.context == self.context
        &&& new.open_files == self.open_files
        &&& new.cwd == self.cwd
    }
}

impl Proc {
    /// Create a user page table using a given process's trapframe address, with no user memory,
    /// but with trampoline and trapframe pages.
    pub fn create_pagetable(&self, kmem: &mut Kmem, trampoline: u64) -> (r: Result<Uvm, KernelError>)
        requires
            old(kmem).wf(),
            page_ok(trampoline),
            self.data.trapframe is Some,
            page_ok(self.data.trapframe->0.pa),
        ensures
            final(kmem).wf(),
            r is Ok <==> old(kmem)@.free.len() >= 3,
            forall|p: u64| #[trigger]
                old(kmem)@.frames.contains_key(p) ==> final(kmem)@.frames.contains_key(p)
                    && final(kmem)@.frames[p] == old(kmem)@.frames[p],
            r matches Err(e) ==> e == KernelError::Vm(VmError::Alloc) && final(kmem)@.free == old(
                kmem,
            )@.free,
            r matches Ok(u) ==> {
                &&& u.wf(final(kmem)@)
                &&& u.mem(final(kmem)@) == UserMem::fresh((old(kmem)@.free.len() - 3) as nat)
                &&& u.made_from(final(kmem)@, old(kmem)@)
                &&& u.trampoline_at(final(kmem)@, trampoline)
                &&& u.trapframe_at(final(kmem)@, self.data.trapframe->0.pa)
            },
    {
        let trapframe = self.data.trapframe.as_ref().unwrap().pa;
        match Uvm::for_process(kmem, trampoline, trapframe) {
            Ok(uvm) => Ok(uvm),
            Err(e) => Err(KernelError::from(e)),
        }
    }

    /// Free the process and the data attached to it (including user pages).
    pub fn free(&mut self, kmem: &mut Kmem)
        requires
            old(kmem).wf(),
            match (old(self).data.trapframe, old(self).data.pagetable) {
                (Some(t), Some(u)) => old(self).data.settled(old(kmem)@),
                (Some(t), None) => old(kmem)@.frames.contains_key(t.pa),
                (None, Some(u)) => false,
                (None, None) => true,
            },
        ensures
            final(kmem).wf(),
            final(self).id == old(self).id,
            final(self).inner == ProcInner::unused(),
            old(self).data.emptied(final(self).data),
            old(self).data.gone(old(kmem)@, final(kmem)@),
    {
        let ghost k0 = kmem@;
        proof {
            kmem.lemma_wf();
        }
        if let Some(trapframe) = self.data.trapframe.take() {
            kmem.release(trapframe.pa);
        }
        if let Some(uvm) = self.data.pagetable.take() {
            proof {
                kmem.lemma_wf();
                uvm.lemma_owns(k0);
                uvm.lemma_untouched(k0, kmem@);
                let m = uvm.mem(kmem@);
                assert(m.pages == uvm.mem(k0).pages);
                assert(uvm.mem(k0).within(self.data.size as int));
                assert forall|n: int|
                    UPAGES <= n < MAXPAGES && flag(#[trigger] uvm.pte(kmem@, n), PTE_V) implies leaf(
                    uvm.pte(kmem@, n),
                ) by {
                    assert(m.pages.contains_key(n));
                    crate::vm::uvm::lemma_flags(uvm.pte(kmem@, n));
                }
            }
            uvm.proc_free(kmem, self.data.size);
        }
        self.data.size = 0;
        self.inner.pid = Pid(0);
        self.data.name.clear();
        self.inner.channel = None;
        self.inner.killed = false;
        self.inner.xstate = 0;
        self.inner.state = ProcState::Unused;
    }
}

impl ProcTable {
    /// The first slot from `i` on that is not in use.
    pub open spec fn first_unused(self, i: int) -> int
        decreases NPROC - i,
    {
        if i >= NPROC || self.table@[i].inner.state == ProcState::Unused {
            i
        } else {
            self.first_unused(i + 1)
        }
    }

    pub proof fn lemma_first_unused(self, i: int)
        requires
            0 <= i <= NPROC,
        ensures
            i <= self.first_unused(i) <= NPROC,
            self.first_unused(i) < NPROC ==> self.table@[self.first_unused(i)].inner.state
                == ProcState::Unused,
        decreases NPROC - i,
    {
        if i < NPROC && self.table@[i].inner.state != ProcState::Unused {
            self.lemma_first_unused(i + 1);
        }
    }

    /// Slots that are not in use have no memory.
    pub open spec fn tidy(self) -> bool {
        forall|i: int|
            0 <= i < NPROC && (#[trigger] self.table@[i]).inner.state == ProcState::Unused
                ==> self.table@[i].inner == ProcInner::unused() && self.table@[i].data.trapframe is None
                && self.table@[i].data.pagetable is None
    }

    /// Every slot but `i` is the same, and so are parents and init.
    pub open spec fn same_but(self, new: ProcTable, i: int) -> bool {
        &&& new.table@.len() == self.table@.len()
        &&& forall|j: int|
            0 <= j < self.table@.len() && j != i ==> #[trigger] new.table@[j] == self.table@[j]
        &&& new.parents == self.parents
        &&& new.init == self.init
    }

    /// What a new process in slot `i` is, with `left` frames left after it was made.
    pub open spec fn made(self, new: ProcTable, i: int, k: KmemState, code: Code, left: nat) -> bool {
        let p = new.table@[i];
        let d = self.table@[i].data;
        &&& p.id == i
        &&& p.inner == (ProcInner {
            pid: Pid(self.pid_count),
            state: ProcState::Used,
            ..ProcInner::unused()
        })
        &&& p.data.settled(k)
        &&& p.data.pagetable->0.trampoline_at(k, code.trampoline)
        &&& p.data.mem(k) == UserMem::fresh(left)
        &&& p.data.trapframe->0.frame == TrapFrame::zeroed()
        &&& p.data.context == (Context {
            ra: code.fork_ret,
            sp: (d.kstack.0 + NKSTACK_PAGES * PGSIZE) as u64,
            ..Context::zeroed()
        })
        &&& p.data.kstack == d.kstack
        &&& p.data.size == d.size
        &&& p.data.open_files == d.open_files
        &&& p.data.cwd == d.cwd
        &&& p.data.name == d.name
    }

    /// Searches the process table for a `ProcState::Unused` proc.
    /// If found, initialize state required to run in the kernel, and return its index.
    pub fn allocate(&mut self, kmem: &mut Kmem, code: Code) -> (r: Result<usize, KernelError>)
        requires
            old(self).wf(),
            old(self).tidy(),
            old(kmem).wf(),
            page_ok(code.trampoline),
            old(self).pid_count < u64::MAX,
            forall|i: int|
                0 <= i < NPROC ==> (#[trigger] old(self).table@[i]).data.kstack.0 + NKSTACK_PAGES
                    * PGSIZE <= u64::MAX,
            forall|i: int|
                0 <= i < NPROC && (#[trigger] old(self).table@[i]).inner.state == ProcState::Unused
                    ==> old(self).table@[i].data.size == 0,
        ensures
            final(self).wf(),
            final(kmem).wf(),
            forall|p: u64| #[trigger]
                old(kmem)@.frames.contains_key(p) ==> final(kmem)@.frames.contains_key(p)
                    && final(kmem)@.frames[p] == old(kmem)@.frames[p],
            ({
                let i = old(self).first_unused(0);
                let left = old(kmem)@.free.len();
                if i >= NPROC {
                    &&& r == Err::<usize, KernelError>(KernelError::OutOfProc)
                    &&& *final(self) == *old(self)
                    &&& final(kmem)@ == old(kmem)@
                } else {
                    &&& old(self).same_but(*final(self), i)
                    &&& final(self).pid_count == old(self).pid_count + 1
                    &&& if left >= 4 {
                        let u = final(self).table@[i].data.pagetable->0;
                        let pa = final(self).table@[i].data.trapframe->0.pa;
                        &&& r == Ok::<usize, KernelError>(i as usize)
                        &&& old(self).made(*final(self), i, final(kmem)@, code, (left - 4) as nat)
                        &&& old(kmem)@.free.contains(pa)
                        &&& forall|p: u64| #[trigger]
                            u.owns(final(kmem)@, p) ==> old(kmem)@.free.contains(p)
                        &&& forall|p: u64| #[trigger]
                            final(kmem)@.free.contains(p) ==> old(kmem)@.free.contains(p)
                    } else {
                        &&& r == Err::<usize, KernelError>(
                            if left == 0 {
                                KernelError::Alloc
                            } else {
                                KernelError::Vm(VmError::Alloc)
                            },
                        )
                        &&& final(self).table@[i].id == i
                        &&& final(self).table@[i].inner == ProcInner::unused()
                        &&& old(self).table@[i].data.emptied(final(self).table@[i].data)
                        &&& final(kmem)@.free == old(kmem)@.free
                    }
                }
            }),
    {
        let ghost t0 = *self;
        let ghost k0 = kmem@;
        proof {
            kmem.lemma_wf();
        }
        let mut i: usize = 0;
        while i < NPROC
            invariant
                i <= NPROC,
                self.wf(),
                *self == t0,
                t0 == *old(self),
                t0.first_unused(0) == t0.first_unused(i as int),
            ensures
                i == t0.first_unused(0),
                i <= NPROC,
                i < NPROC ==> t0.table@[i as int].inner.state == ProcState::Unused,
            decreases NPROC - i,
        {
            if self.table[i].inner.state == ProcState::Unused {
                break;
            }
            i += 1;
        }
        if i == NPROC {
            return Err(KernelError::OutOfProc);
        }
        assert(t0.table@[i as int].inner == ProcInner::unused());
        let pid = Pid::allocate(&mut self.pid_count);
        self.table[i].inner.pid = pid;
        self.table[i].inner.state = ProcState::Used;
        // Allocate a trapframe page.
        let pa = match kmem.allocate_page() {
            Some(pa) => pa,
            None => {
                self.table[i].free(kmem);
                return Err(KernelError::Alloc);
            },
        };
        let ghost k1 = kmem@;
        proof {
            kmem.lemma_wf();
            assert(k1.free.len() == k0.free.len() - 1);
            assert(k1.frames.contains_key(pa));
            assert forall|p: u64| #[trigger] k0.frames.contains_key(p) implies p != pa
                && k1.frames.contains_key(p) && k1.frames[p] == k0.frames[p] by {}
        }
        self.table[i].data.trapframe = Some(TrapPage { pa, frame: TrapFrame::new() });
        // Allocate an empty user page table.
        match self.table[i].create_pagetable(kmem, code.trampoline) {
            Ok(uvm) => {
                self.table[i].data.pagetable = Some(uvm);
                proof {
                    let k2 = kmem@;
                    let d = self.table@[i as int].data;
                    assert(k1.frames.contains_key(pa));
                    assert(!d.pagetable->0.owns(k2, pa)) by {
                        if d.pagetable->0.owns(k2, pa) {
                            assert(k1.free.contains(pa));
                        }
                    }
                    lemma_fresh_ok((k0.free.len() - 4) as nat);
                    assert forall|p: u64| #[trigger] k0.frames.contains_key(
                        p,
                    ) implies k2.frames.contains_key(p) && k2.frames[p] == k0.frames[p] by {
                        assert(k1.frames.contains_key(p));
                    }
                }
            },
            Err(e) => {
                let ghost k2 = kmem@;
                self.table[i].free(kmem);
                proof {
                    assert(k2.frames.contains_key(pa));
                    assert(kmem@.free =~= k0.free);
                    assert forall|p: u64| #[trigger] k0.frames.contains_key(
                        p,
                    ) implies kmem@.frames.contains_key(p) && kmem@.frames[p] == k0.frames[p] by {
                        assert(k1.frames.contains_key(p));
                    }
                }
                return Err(e);
            },
        }
        // Set up new context to start executing at forkret, which returns to user space.
        let sp = self.table[i].data.kstack.0 + NKSTACK_PAGES as u64 * PGSIZE;
        self.table[i].data.context.zero();
        self.table[i].data.context.ra = code.fork_ret;
        self.table[i].data.context.sp = sp;
        Ok(i)
    }
}

/// A new process has no pages of its own, and its reserved pages are pages.
pub proof fn lemma_fresh_ok(left: nat)
    ensures
        UserMem::fresh(left).within(0),
        UserMem::fresh(left).reserved_ok(),
        UserMem::fresh(left).whole(),
{
    assert(leaf(2u64 | 8u64 | 1u64) && leaf(2u64 | 4u64 | 1u64)) by (bit_vector);
}

} // verus!
