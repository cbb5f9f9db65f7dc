//! Copying between the kernel and the memory of a process.
use vstd::prelude::*;
use crate::error::KernelError;
use crate::kalloc::{Kmem, KmemState};
use crate::proc::ProcData;
use crate::riscv::PGSIZE;
use crate::vm::usermem::UPAGES;
use crate::vm::uvm::kmem_ok;
use crate::vm::{leaf, UserMem, VA};

verus! {

impl ProcData {
    /// The process has memory, which is in order.
    pub open spec fn ready(self, k: KmemState) -> bool {
        &&& self.pagetable is Some
        &&& self.pagetable->0.wf(k)
        &&& self.size <= u64::MAX - 2 * PGSIZE
    }

    /// The process has memory and a trap frame, in order and apart from each other, and no pages
    /// beyond its size. The page for the trap frame leads to it.
    pub open spec fn settled(self, k: KmemState) -> bool {
        &&& self.ready(k)
        &&& self.trapframe is Some
        &&& k.frames.contains_key(self.trapframe->0.pa)
        &&& k.frames[self.trapframe->0.pa].refs == 1
        &&& !self.pagetable->0.owns(k, self.trapframe->0.pa)
        &&& self.pagetable->0.trapframe_at(k, self.trapframe->0.pa)
        &&& self.mem(k).within(self.size as int)
        &&& self.mem(k).reserved_ok()
    }

    /// The memory of the process.
    pub open spec fn mem(self, k: KmemState) -> UserMem {
        self.pagetable->0.mem(k)
    }

    /// From `self` in `k0` to `new` in `k1` the process changed its own memory, and nothing else
    /// of its own or of others.
    pub open spec fn touched(self, k0: KmemState, new: ProcData, k1: KmemState) -> bool {
        &&& new == (ProcData { pagetable: new.pagetable, ..self })
        &&& new.ready(k1)
        &&& self.pagetable->0.apart(k0, new.pagetable->0, k1)
        &&& forall|m: int|
            UPAGES <= m ==> #[trigger] new.pagetable->0.pte(k1, m) == self.pagetable->0.pte(k0, m)
        &&& self.mem(k0).within(self.size as int) ==> new.mem(k1).within(self.size as int)
    }

    pub proof fn lemma_touched_refl(self, k: KmemState)
        requires
            self.ready(k),
            crate::vm::uvm::kmem_ok(k),
        ensures
            self.touched(k, self, k),
    {
        self.pagetable->0.lemma_refl(k);
    }

    pub proof fn lemma_touched_trans(
        self,
        k0: KmemState,
        mid: ProcData,
        k1: KmemState,
        new: ProcData,
        k2: KmemState,
    )
        requires
            self.ready(k0),
            self.touched(k0, mid, k1),
            mid.touched(k1, new, k2),
            crate::vm::uvm::kmem_ok(k0),
            crate::vm::uvm::kmem_ok(k1),
        ensures
            self.touched(k0, new, k2),
    {
        self.pagetable->0.lemma_owns(k0);
        crate::vm::uvm::lemma_apart_trans(
            self.pagetable->0,
            k0,
            mid.pagetable->0,
            k1,
            new.pagetable->0,
            k2,
        );
        assert forall|m: int| UPAGES <= m implies #[trigger] new.pagetable->0.pte(k2, m)
            == self.pagetable->0.pte(k0, m) by {
            assert(mid.pagetable->0.pte(k1, m) == self.pagetable->0.pte(k0, m));
        }
    }
}

impl ProcData {
    /// A process that changed its memory within its size is still in order.
    pub proof fn lemma_still(self, k0: KmemState, new: ProcData, k1: KmemState)
        requires
            kmem_ok(k0),
            self.settled(k0),
            self.touched(k0, new, k1),
        ensures
            new.settled(k1),
    {
        self.lemma_resized(k0, new, k1);
    }

    /// The same where its size changed too.
    pub proof fn lemma_resized(self, k0: KmemState, new: ProcData, k1: KmemState)
        requires
            kmem_ok(k0),
            self.settled(k0),
            (ProcData { size: new.size, ..self }).touched(k0, new, k1),
            new.mem(k1).within(new.size as int),
        ensures
            new.settled(k1),
    {
        let u = self.pagetable->0;
        let v = new.pagetable->0;
        let pa = self.trapframe->0.pa;
        assert(u.frame_apart(k0, v, k1, pa));
        if v.owns(k1, pa) {
            assert(k0.free.contains(pa));
        }
        let a = self.mem(k0);
        let b = new.mem(k1);
        assert(v.pte(k1, UPAGES as int) == u.pte(k0, UPAGES as int));
        assert(a.pages.contains_key(UPAGES as int));
        assert forall|n: int| UPAGES <= n && #[trigger] b.pages.contains_key(n) implies leaf(
            b.pages[n].flags,
        ) by {
            assert(v.pte(k1, n) == u.pte(k0, n));
            assert(a.pages.contains_key(n));
        }
    }
}

/// Copies from kernel to user space.
pub fn copy_to_user(data: &mut ProcData, kmem: &mut Kmem, src: &[u8], dst: VA) -> (r: Result<
    (),
    KernelError,
>)
    requires
        old(kmem).wf(),
        old(data).ready(old(kmem)@),
        old(data).mem(old(kmem)@).copy_to(old(data).size as int, dst.0 as int, src@) is Some,
    ensures
        final(kmem).wf(),
        old(data).touched(old(kmem)@, *final(data), final(kmem)@),
        old(data).settled(old(kmem)@) ==> final(data).settled(final(kmem)@),
        ({
            let (m, result) = old(data).mem(old(kmem)@).copy_to(
                old(data).size as int,
                dst.0 as int,
                src@,
            )->0;
            &&& final(data).mem(final(kmem)@) == m
            &&& match result {
                Ok(()) => r == Ok::<(), KernelError>(()),
                Err(e) => r == Err::<(), KernelError>(KernelError::Vm(e)),
            }
        }),
{
    let size = data.size;
    let ghost d0 = *data;
    let ghost k0 = kmem@;
    proof {
        kmem.lemma_wf();
    }
    let r = data.pagetable_mut().copy_to(kmem, size, src, dst);
    proof {
        if d0.mem(k0).within(size as int) {
            d0.mem(k0).lemma_copy_to_within_size(size as int, dst.0 as int, src@);
        }
        if d0.settled(k0) {
            d0.lemma_still(k0, *data, kmem@);
        }
    }
    match r {
        Ok(()) => Ok(()),
        Err(e) => Err(KernelError::from(e)),
    }
}

/// Copies `len` bytes from user space to the end of `dst`.
pub fn copy_from_user(data: &mut ProcData, kmem: &mut Kmem, src: VA, dst: &mut Vec<u8>, len: usize) -> (r: Result<
    (),
    KernelError,
>)
    requires
        old(kmem).wf(),
        old(data).ready(old(kmem)@),
        old(data).mem(old(kmem)@).copy_from(
            old(data).size as int,
            src.0 as int,
            len as int,
            old(dst)@,
        ) is Some,
    ensures
        final(kmem).wf(),
        old(data).touched(old(kmem)@, *final(data), final(kmem)@),
        old(data).settled(old(kmem)@) ==> final(data).settled(final(kmem)@),
        ({
            let (m, result) = old(data).mem(old(kmem)@).copy_from(
                old(data).size as int,
                src.0 as int,
                len as int,
                old(dst)@,
            )->0;
            &&& final(data).mem(final(kmem)@) == m
            &&& match result {
                Ok(bytes) => {
                    &&& r == Ok::<(), KernelError>(())
                    &&& final(dst)@ == bytes
                    &&& final(dst)@.len() == old(dst)@.len() + len
                },
                Err(e) => r == Err::<(), KernelError>(KernelError::Vm(e)),
            }
        }),
{
    let size = data.size;
    proof {
        kmem.lemma_wf();
        data.pagetable->0.lemma_whole(kmem@);
        data.mem(kmem@).lemma_copy_from(size as int, src.0 as int, len as int, dst@);
    }
    let ghost d0 = *data;
    let ghost k0 = kmem@;
    let ghost acc = dst@;
    let r = data.pagetable_mut().copy_from(kmem, size, src, dst, len);
    proof {
        if d0.mem(k0).within(size as int) {
            d0.mem(k0).lemma_copy_from_within(size as int, src.0 as int, len as int, acc);
        }
        if d0.settled(k0) {
            d0.lemma_still(k0, *data, kmem@);
        }
    }
    match r {
        Ok(()) => Ok(()),
        Err(e) => Err(KernelError::from(e)),
    }
}

} // verus!
