//! The pages of a process that are for the kernel: trampoline and trap frame.
use vstd::prelude::*;
use crate::kalloc::{page_ok, Kmem, KmemState};
use crate::memlayout::{TRAMPOLINE, TRAPFRAME};
use crate::riscv::{entry_of, page_of, PGSIZE, PTE_R, PTE_V, PTE_W, PTE_X};
use crate::vm::pagetable::Shape;
use crate::vm::usermem::{UserMem, UserPage, MAXPAGES, UPAGES};
use crate::vm::uvm::{kmem_ok, lemma_entry_page, lemma_new_pte, lemma_node_kept, Uvm};
use crate::vm::{flag, leaf, VmError, PA, VA};

verus! {

impl UserMem {
    /// Adding the reserved page `n`, which takes frames for missing tables.
    pub open spec fn reserve(self, n: int, perm: u64) -> (UserMem, Result<(), VmError>) {
        let (shape, f, ok) = self.shape.grow(n * PGSIZE, self.left);
        if ok {
            (
                UserMem {
                    pages: self.pages.insert(
                        n,
                        UserPage { flags: perm | PTE_V, data: seq![], refs: 1 },
                    ),
                    shape,
                    left: f,
                },
                Ok(()),
            )
        } else {
            (UserMem { shape, left: f, ..self }, Err(VmError::Alloc))
        }
    }

    /// The memory of a process that has no pages of its own yet.
    pub open spec fn fresh(left: nat) -> UserMem {
        UserMem {
            pages: Map::empty().insert(
                UPAGES + 1,
                UserPage { flags: PTE_R | PTE_X | PTE_V, data: seq![], refs: 1 },
            ).insert(
                UPAGES as int,
                UserPage { flags: PTE_R | PTE_W | PTE_V, data: seq![], refs: 1 },
            ),
            shape: Shape { mids: set![255int], tabs: set![0x1_ffffint] },
            left,
        }
    }
}

impl Uvm {
    /// The page of the trampoline leads to the code at `pa`, which can be read and executed.
    pub open spec fn trampoline_at(self, k: KmemState, pa: u64) -> bool {
        self.pte(k, UPAGES + 1) == entry_of(pa) | (PTE_R | PTE_X) | PTE_V
    }

    /// The page of the trap frame leads to the frame `pa`, which can be read and written.
    pub open spec fn trapframe_at(self, k: KmemState, pa: u64) -> bool {
        self.pte(k, UPAGES as int) == entry_of(pa) | (PTE_R | PTE_W) | PTE_V
    }

    /// Trampoline and trap frame lead where they did.
    pub open spec fn same_reserved(self, k0: KmemState, new: Uvm, k1: KmemState) -> bool {
        &&& new.pte(k1, UPAGES as int) == self.pte(k0, UPAGES as int)
        &&& new.pte(k1, UPAGES + 1) == self.pte(k0, UPAGES + 1)
    }

    /// What a change of tables and of reserved pages means for a process.
    pub(crate) proof fn lemma_grew(self, k0: KmemState, new: Uvm, k1: KmemState)
        requires
            self.wf(k0),
            kmem_ok(k0),
            new.0.wf(k1),
            self.0.grew(k0, new.0, k1),
            forall|n: int| 0 <= n < UPAGES ==> #[trigger] new.pte(k1, n) == self.pte(k0, n),
        ensures
            new.wf(k1),
            self.apart(k0, new, k1),
            forall|n: int| #[trigger] new.maps(k1, n) == self.maps(k0, n),
            forall|n: int|
                #![trigger new.page(k1, n)]
                #![trigger self.page(k0, n)]
                self.maps(k0, n) ==> new.page(k1, n) == self.page(k0, n),
    {
        self.lemma_owns(k0);
        new.0.lemma_nodes_live(k1);
        assert forall|n: int| #[trigger] new.maps(k1, n) == self.maps(k0, n) by {
            if 0 <= n < UPAGES {
                assert(new.pte(k1, n) == self.pte(k0, n));
            }
        }
        assert forall|n: int| #[trigger] self.maps(k0, n) implies k1.frames.contains_key(
            page_of(self.pte(k0, n)),
        ) && k1.frames[page_of(self.pte(k0, n))] == k0.frames[page_of(self.pte(k0, n))] by {
            assert(self.page_ok(k0, n));
        }
        assert forall|n: int| #[trigger] new.maps(k1, n) implies new.page_ok(k1, n) by {
            assert(self.maps(k0, n));
            assert(self.page_ok(k0, n));
        }
        assert forall|a: int, b: int|
            #![trigger new.maps(k1, a), new.maps(k1, b)]
            new.maps(k1, a) && new.maps(k1, b) && a != b implies page_of(new.pte(k1, a)) != page_of(
            new.pte(k1, b),
        ) by {
            assert(self.maps(k0, a) && self.maps(k0, b));
        }
        assert forall|q: u64| #[trigger] new.owns(k1, q) implies self.owns(k0, q) || (k0.free.contains(
            q,
        ) && k1.frames.contains_key(q) && k1.frames[q].refs == 1) by {
            if !new.0.is_node(q) {
                let m = choose|m: int| #[trigger] new.maps(k1, m) && page_of(new.pte(k1, m)) == q;
                assert(self.maps(k0, m));
            }
        }
        assert forall|q: u64| #[trigger] new.writes(k1, q) implies self.writes(k0, q) by {
            let m = choose|m: int| #[trigger]
                new.maps(k1, m) && page_of(new.pte(k1, m)) == q && flag(new.pte(k1, m), PTE_W);
            assert(self.maps(k0, m));
        }
        assert forall|q: u64| #[trigger] k0.frames.contains_key(q) implies self.frame_apart(
            k0,
            new,
            k1,
            q,
        ) by {
            assert(k1.frames.contains_key(q));
            if self.0.is_node(q) {
                lemma_node_kept(self.0, k0, new.0, k1, q);
                assert(k0.frames[q].refs == 1);
            } else if self.owns(k0, q) {
                let m = choose|m: int| #[trigger] self.maps(k0, m) && page_of(self.pte(k0, m)) == q;
                assert(self.maps(k0, m));
                assert(new.maps(k1, m));
            }
        }
    }

    /// Maps the page `pa` at the reserved address `va`, where there is none yet.
    pub(crate) fn map_reserved(&mut self, kmem: &mut Kmem, va: VA, pa: PA, perm: u64) -> (r: Result<
        (),
        VmError,
    >)
        requires
            old(kmem).wf(),
            old(self).wf(old(kmem)@),
            va.0 == TRAMPOLINE || va.0 == TRAPFRAME,
            page_ok(pa.0),
            perm < 0x400,
            leaf(perm),
            !old(self).mem(old(kmem)@).pages.contains_key(va.0 as int / (PGSIZE as int)),
        ensures
            final(kmem).wf(),
            final(self).wf(final(kmem)@),
            old(self).apart(old(kmem)@, *final(self), final(kmem)@),
            (final(self).mem(final(kmem)@), r) == old(self).mem(old(kmem)@).reserve(
                va.0 as int / (PGSIZE as int),
                perm,
            ),
            r is Ok ==> final(self).pte(final(kmem)@, va.0 as int / (PGSIZE as int)) == entry_of(
                pa.0,
            ) | perm | PTE_V,
            forall|m: int|
                0 <= m && (m != va.0 as int / (PGSIZE as int) || r is Err) ==> #[trigger] final(self).pte(
                    final(kmem)@,
                    m,
                ) == old(self).pte(old(kmem)@, m),
    {
        let ghost s0 = *self;
        let ghost k0 = kmem@;
        let ghost n = va.0 as int / (PGSIZE as int);
        proof {
            kmem.lemma_wf();
            assert forall|a: int| va.0 <= a < va.0 + PGSIZE implies !flag(
                #[trigger] s0.0.entry(k0, a),
                PTE_V,
            ) by {
                lemma_entry_page(s0.0, k0, a);
                assert(a / (PGSIZE as int) == n);
                assert(!flag(s0.pte(k0, n), PTE_V));
            }
        }
        let r = self.0.map_pages(kmem, va, pa, PGSIZE, perm);
        proof {
            let k1 = kmem@;
            reveal_with_fuel(Shape::map_run, 2);
            assert forall|m: int| 0 <= m && m != n implies #[trigger] self.pte(k1, m) == s0.pte(
                k0,
                m,
            ) by {
                let a = m * PGSIZE;
                assert(self.0.entry(k1, a) == s0.0.entry(k0, a));
            }
            s0.lemma_grew(k0, *self, k1);
            let want = s0.mem(k0).reserve(n, perm);
            if r is Ok {
                assert(self.0.entry(k1, va.0 as int) == entry_of(pa.0) | perm | PTE_V);
                assert(self.pte(k1, n) == entry_of(pa.0) | perm | PTE_V);
                lemma_new_pte(pa.0, perm);
            } else {
                assert(self.0.entry(k1, va.0 as int) == s0.0.entry(k0, va.0 as int));
            }
            assert forall|m: int| 0 <= m < MAXPAGES implies (#[trigger] self.mem(k1).pages.contains_key(m)
                == want.0.pages.contains_key(m)) by {
                if m != n {
                    assert(self.pte(k1, m) == s0.pte(k0, m));
                }
            }
            assert forall|m: int| #[trigger] self.mem(k1).pages.contains_key(m) implies self.mem(
                k1,
            ).pages[m] == want.0.pages[m] by {
                if m != n {
                    assert(self.pte(k1, m) == s0.pte(k0, m));
                    if m < UPAGES {
                        assert(s0.maps(k0, m));
                    }
                }
            }
            assert(self.mem(k1).pages =~= want.0.pages);
            assert(self.mem(k1) =~= want.0);
        }
        r
    }

    /// A page table with no user memory, but with trampoline and trap frame. The page of the
    /// trampoline code is at `trampoline`, that of the trap frame at `trapframe`.
    pub fn for_process(kmem: &mut Kmem, trampoline: u64, trapframe: u64) -> (r: Result<Self, VmError>)
        requires
            old(kmem).wf(),
            page_ok(trampoline),
            page_ok(trapframe),
        ensures
            final(kmem).wf(),
            r is Ok <==> old(kmem)@.free.len() >= 3,
            forall|p: u64| #[trigger]
                old(kmem)@.frames.contains_key(p) ==> final(kmem)@.frames.contains_key(p)
                    && final(kmem)@.frames[p] == old(kmem)@.frames[p],
            r matches Err(e) ==> e == VmError::Alloc && final(kmem)@.free == old(kmem)@.free,
            r matches Ok(u) ==> {
                &&& u.wf(final(kmem)@)
                &&& u.mem(final(kmem)@) == UserMem::fresh((old(kmem)@.free.len() - 3) as nat)
                &&& u.made_from(final(kmem)@, old(kmem)@)
                &&& u.trampoline_at(final(kmem)@, trampoline)
                &&& u.trapframe_at(final(kmem)@, trapframe)
            },
    {
        let ghost k0 = kmem@;
        proof {
            kmem.lemma_wf();
        }
        let mut uvm = match Uvm::try_new(kmem) {
            Ok(uvm) => uvm,
            Err(e) => {
                return Err(e);
            },
        };
        let ghost u1 = uvm;
        let ghost k1 = kmem@;
        proof {
            kmem.lemma_wf();
            lemma_bare(u1, k1);
            reveal_with_fuel(Shape::map_run, 2);
            assert(TRAMPOLINE as int / (PGSIZE as int) == UPAGES + 1);
            assert(TRAPFRAME as int / (PGSIZE as int) == UPAGES);
            assert(leaf(PTE_R | PTE_X) && leaf(PTE_R | PTE_W)) by (bit_vector);
            assert(2u64 | 8u64 < 0x400 && 2u64 | 4u64 < 0x400) by (bit_vector);
        }
        // Map the trampoline code (for system call returns) at the highest user virtual address.
        // Only the supervisor uses it, on the way to/from user space, so not PTE_U.
        if let Err(e) = uvm.map_reserved(kmem, VA(TRAMPOLINE), PA(trampoline), PTE_R | PTE_X) {
            let ghost k2 = kmem@;
            proof {
                kmem.lemma_wf();
            }
            let ghost u2 = uvm;
            proof {
                lemma_made_on(u1, k1, u2, k2, k0);
                assert(uvm.mem(k2).pages =~= Map::empty());
            }
            uvm.free(kmem, 0);
            proof {
                kmem.lemma_wf();
                lemma_made_undone(u2, k2, kmem@, k0);
            }
            return Err(e);
        }
        let ghost u2 = uvm;
        let ghost k2 = kmem@;
        proof {
            kmem.lemma_wf();
        }
        // Map the trapframe page just below the trampoline page, which shares its tables.
        let r = uvm.map_reserved(kmem, VA(TRAPFRAME), PA(trapframe), PTE_R | PTE_W);
        proof {
            assert(crate::vm::pagetable::tab_of(TRAMPOLINE as int) == 0x1_ffff);
            assert(crate::vm::pagetable::tab_of(TRAPFRAME as int) == 0x1_ffff);
            assert(r is Ok);
            kmem.lemma_wf();
            lemma_made_on(u1, k1, u2, k2, k0);
            lemma_made_on(u2, k2, uvm, kmem@, k0);
            let f = UserMem::fresh((k0.free.len() - 3) as nat);
            assert(uvm.mem(kmem@).shape.mids =~= f.shape.mids);
            assert(uvm.mem(kmem@).shape.tabs =~= f.shape.tabs);
            assert(uvm.mem(kmem@).pages =~= f.pages);
        }
        Ok(uvm)
    }
}

/// A process without pages owns its tables only, and each for itself.
proof fn lemma_bare(u: Uvm, k: KmemState)
    requires
        u.wf(k),
        u.mem(k).pages == Map::<int, UserPage>::empty(),
    ensures
        forall|p: u64| #[trigger]
            u.owns(k, p) ==> k.frames.contains_key(p) && k.frames[p].refs == 1,
{
    u.0.lemma_nodes_live(k);
    assert forall|p: u64| #[trigger] u.owns(k, p) implies u.0.is_node(p) by {
        if !u.0.is_node(p) {
            let m = choose|m: int| #[trigger] u.maps(k, m) && page_of(u.pte(k, m)) == p;
            assert(u.mem(k).pages.contains_key(m));
        }
    }
}

impl Uvm {
    /// Everything that `self` owns in `k` was free in `k0`, and nothing else has changed since.
    pub open spec fn made_from(self, k: KmemState, k0: KmemState) -> bool {
        &&& forall|p: u64| #[trigger]
            self.owns(k, p) ==> k0.free.contains(p) && k.frames.contains_key(p)
                && k.frames[p].refs == 1
        &&& forall|p: u64| #[trigger] k.free.contains(p) ==> k0.free.contains(p)
        &&& forall|p: u64| #[trigger] k0.free.contains(p) ==> k.free.contains(p) || self.owns(k, p)
        &&& forall|p: u64| #[trigger]
            k0.frames.contains_key(p) ==> k.frames.contains_key(p) && k.frames[p] == k0.frames[p]
    }
}

/// A process that was made of free frames still is when it has changed its memory.
pub(crate) proof fn lemma_made_on(u1: Uvm, k1: KmemState, u2: Uvm, k2: KmemState, k0: KmemState)
    requires
        kmem_ok(k0),
        kmem_ok(k1),
        kmem_ok(k2),
        u2.wf(k2),
        u1.made_from(k1, k0),
        u1.apart(k1, u2, k2),
    ensures
        u2.made_from(k2, k0),
{
    u2.lemma_owns(k2);
    assert forall|p: u64| #[trigger] k0.frames.contains_key(p) implies k2.frames.contains_key(p)
        && k2.frames[p] == k0.frames[p] by {
        assert(k1.frames.contains_key(p));
        assert(!u1.owns(k1, p));
        assert(u1.frame_apart(k1, u2, k2, p));
    }
    assert forall|p: u64| #[trigger] k2.free.contains(p) implies k0.free.contains(p) by {
        assert(u1.alone(k1, p));
    }
    assert forall|p: u64| #[trigger] u2.owns(k2, p) implies k0.free.contains(p)
        && k2.frames.contains_key(p) && k2.frames[p].refs == 1 by {
        if u1.owns(k1, p) {
            assert(u1.frame_apart(k1, u2, k2, p));
        }
    }
    assert forall|p: u64| #[trigger] k0.free.contains(p) implies k2.free.contains(p) || u2.owns(
        k2,
        p,
    ) by {
        if !k1.free.contains(p) {
            assert(u1.owns(k1, p));
            assert(u1.frame_apart(k1, u2, k2, p));
        }
    }
}

/// The frames of a process that was made of free ones and is gone again are free.
pub(crate) proof fn lemma_made_undone(u: Uvm, k1: KmemState, k2: KmemState, k0: KmemState)
    requires
        kmem_ok(k0),
        kmem_ok(k1),
        kmem_ok(k2),
        u.made_from(k1, k0),
        u.all_freed(k1, k2),
    ensures
        k2.free == k0.free,
        forall|p: u64| #[trigger]
            k0.frames.contains_key(p) ==> k2.frames.contains_key(p) && k2.frames[p] == k0.frames[p],
{
    assert forall|p: u64| #[trigger] k0.frames.contains_key(p) implies k2.frames.contains_key(p)
        && k2.frames[p] == k0.frames[p] by {
        assert(k1.frames.contains_key(p));
        assert(!u.owns(k1, p));
        assert(u.frame_freed(k1, k2, p));
    }
    assert forall|p: u64| #[trigger] k2.free.contains(p) implies k0.free.contains(p) by {
        assert(u.alone(k1, p));
    }
    assert forall|p: u64| #[trigger] k0.free.contains(p) implies k2.free.contains(p) by {
        if !k1.free.contains(p) {
            assert(u.owns(k1, p));
            assert(u.frame_freed(k1, k2, p));
        }
    }
    assert(k2.free =~= k0.free);
}

} // verus!
