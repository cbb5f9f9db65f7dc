//! Sharing memory with a child, and freeing memory.
use vstd::prelude::*;
use crate::kalloc::{FrameState, Kmem, KmemState};
use crate::memlayout::{TRAMPOLINE, TRAPFRAME};
use crate::riscv::{
    entry_of,
    flags_of,
    law_pte_roundtrip,
    page_of,
    pg_round_up,
    plain,
    round_up,
    MAXVA,
    PGSIZE,
    PTE_COW,
    PTE_V,
    PTE_W,
};
use crate::vm::pagetable::Shape;
use crate::vm::usermem::{cow_flags, Forked, UserMem, UserPage, MAXPAGES, UPAGES};
use crate::vm::uvm::{
    kmem_ok,
    lemma_alone,
    lemma_apart_trans,
    lemma_beyond,
    lemma_entry_page,
    lemma_flags,
    lemma_mem,
    lemma_only,
    lemma_pt_frame,
    only,
    Uvm,
};
use crate::vm::{flag, leaf, PageTableEntry, VmError, VA};

verus! {

/// What the entry of a shared page becomes.
pub open spec fn cow_pte(pte: u64) -> u64 {
    if flag(pte, PTE_W) {
        (pte & !PTE_W) | PTE_COW
    } else {
        pte
    }
}

proof fn lemma_cow_pte(pte: u64)
    ensures
        page_of(cow_pte(pte)) == page_of(pte),
        flags_of(cow_pte(pte)) == cow_flags(flags_of(pte)),
        flag(cow_pte(pte), PTE_V) == flag(pte, PTE_V),
        !flag(cow_pte(pte), PTE_W),
        plain(pte) ==> plain(cow_pte(pte)),
{
    lemma_flags(pte);
    assert((((pte & !4u64) | 256) >> 10) << 12 == (pte >> 10) << 12 && ((pte & !4u64) | 256) & 0x3FF
        == ((pte & 0x3FF) & !4u64) | 256 && ((pte & !4u64) | 256) & 1 == pte & 1 && ((pte & !4u64)
        | 256) & 4 == 0 && (pte < 0x4000_0000_0000_0000 ==> ((pte & !4u64) | 256)
        < 0x4000_0000_0000_0000)) by (bit_vector);
}

impl Uvm {
    /// Nothing that `self` sees of its own frames differs between `k0` and `k1`.
    pub(crate) proof fn lemma_untouched(self, k0: KmemState, k1: KmemState)
        requires
            self.wf(k0),
            forall|p: u64| #[trigger]
                self.owns(k0, p) ==> k1.frames.contains_key(p) && k1.frames[p] == k0.frames[p],
        ensures
            self.wf(k1),
            self.mem(k1).pages == self.mem(k0).pages,
            forall|m: int| #[trigger] self.pte(k1, m) == self.pte(k0, m),
            forall|m: int| #[trigger] self.maps(k1, m) == self.maps(k0, m),
            forall|p: u64| #[trigger] self.owns(k1, p) == self.owns(k0, p),
    {
        assert forall|p: u64| #[trigger] self.0.is_node(p) implies k1.frames.contains_key(p)
            && k1.frames[p] == k0.frames[p] by {
            assert(self.owns(k0, p));
        }
        lemma_pt_frame(self.0, k0, k1);
        assert forall|m: int| #[trigger] self.pte(k1, m) == self.pte(k0, m) by {}
        assert forall|m: int| #[trigger] self.maps(k1, m) == self.maps(k0, m) by {}
        assert forall|m: int| #[trigger] self.maps(k0, m) implies k1.frames.contains_key(
            page_of(self.pte(k0, m)),
        ) && k1.frames[page_of(self.pte(k0, m))] == k0.frames[page_of(self.pte(k0, m))] by {
            assert(self.owns(k0, page_of(self.pte(k0, m))));
        }
        assert forall|m: int| #[trigger] self.maps(k1, m) implies self.page_ok(k1, m) by {
            assert(self.maps(k0, m));
            assert(self.page_ok(k0, m));
        }
        assert forall|a: int, b: int|
            #![trigger self.maps(k1, a), self.maps(k1, b)]
            self.maps(k1, a) && self.maps(k1, b) && a != b implies page_of(self.pte(k1, a)) != page_of(
            self.pte(k1, b),
        ) by {
            assert(self.maps(k0, a) && self.maps(k0, b));
        }
        assert(self.mem(k1).pages =~= self.mem(k0).pages) by {
            assert forall|m: int| 0 <= m < MAXPAGES && flag(self.pte(k0, m), PTE_V) implies #[trigger] self.page(
                k1,
                m,
            ) == self.page(k0, m) by {
                if m < UPAGES {
                    assert(self.maps(k0, m));
                }
            }
        }
        assert forall|q: u64| #[trigger] self.owns(k1, q) == self.owns(k0, q) by {
            if self.owns(k1, q) && !self.0.is_node(q) {
                let m = choose|m: int| #[trigger] self.maps(k1, m) && page_of(self.pte(k1, m)) == q;
                assert(self.maps(k0, m));
            }
            if self.owns(k0, q) && !self.0.is_node(q) {
                let m = choose|m: int| #[trigger] self.maps(k0, m) && page_of(self.pte(k0, m)) == q;
                assert(self.maps(k1, m));
            }
        }
    }

    /// Between `k0` and `k1` only counts of page frames differ.
    pub(crate) proof fn lemma_recounted(self, k0: KmemState, k1: KmemState)
        requires
            self.wf(k0),
            forall|p: u64| #[trigger]
                self.owns(k0, p) ==> k1.frames.contains_key(p) && k1.frames[p].content
                    == k0.frames[p].content,
            forall|p: u64| #[trigger]
                self.0.is_node(p) ==> k1.frames[p].refs == k0.frames[p].refs,
        ensures
            self.wf(k1),
            forall|m: int| #[trigger] self.pte(k1, m) == self.pte(k0, m),
            forall|m: int| #[trigger] self.maps(k1, m) == self.maps(k0, m),
            forall|p: u64| #[trigger] self.owns(k1, p) == self.owns(k0, p),
            self.mem(k1).pages.dom() == self.mem(k0).pages.dom(),
            forall|m: int| #[trigger]
                self.mem(k0).pages.contains_key(m) ==> self.mem(k1).pages[m] == (if m < UPAGES {
                    UserPage {
                        refs: k1.frames[page_of(self.pte(k0, m))].refs,
                        ..self.mem(k0).pages[m]
                    }
                } else {
                    self.mem(k0).pages[m]
                }),
    {
        assert forall|p: u64| #[trigger] self.0.is_node(p) implies k1.frames.contains_key(p)
            && k1.frames[p] == k0.frames[p] by {
            assert(self.owns(k0, p));
        }
        lemma_pt_frame(self.0, k0, k1);
        assert forall|m: int| #[trigger] self.pte(k1, m) == self.pte(k0, m) by {}
        assert forall|m: int| #[trigger] self.maps(k1, m) == self.maps(k0, m) by {}
        assert forall|m: int| #[trigger] self.maps(k1, m) implies self.page_ok(k1, m) by {
            assert(self.maps(k0, m));
            assert(self.page_ok(k0, m));
            assert(self.owns(k0, page_of(self.pte(k0, m))));
        }
        assert forall|a: int, b: int|
            #![trigger self.maps(k1, a), self.maps(k1, b)]
            self.maps(k1, a) && self.maps(k1, b) && a != b implies page_of(self.pte(k1, a)) != page_of(
            self.pte(k1, b),
        ) by {
            assert(self.maps(k0, a) && self.maps(k0, b));
        }
        assert(self.mem(k1).pages.dom() =~= self.mem(k0).pages.dom());
        assert forall|m: int| #[trigger] self.mem(k0).pages.contains_key(m) implies self.mem(
            k1,
        ).pages[m] == (if m < UPAGES {
            UserPage { refs: k1.frames[page_of(self.pte(k0, m))].refs, ..self.mem(k0).pages[m] }
        } else {
            self.mem(k0).pages[m]
        }) by {
            if m < UPAGES {
                assert(self.maps(k0, m));
                assert(self.owns(k0, page_of(self.pte(k0, m))));
            }
        }
        assert forall|q: u64| #[trigger] self.owns(k1, q) == self.owns(k0, q) by {
            if self.owns(k1, q) && !self.0.is_node(q) {
                let m = choose|m: int| #[trigger] self.maps(k1, m) && page_of(self.pte(k1, m)) == q;
                assert(self.maps(k0, m));
            }
            if self.owns(k0, q) && !self.0.is_node(q) {
                let m = choose|m: int| #[trigger] self.maps(k0, m) && page_of(self.pte(k0, m)) == q;
                assert(self.maps(k1, m));
            }
        }
    }

    /// The pages of `child` below `n` are those of `self`, not writable; it has no others.
    pub open spec fn shares(self, child: Uvm, k: KmemState, n: int) -> bool {
        &&& forall|p: u64| #[trigger] self.0.is_node(p) ==> !child.0.is_node(p)
        &&& forall|m: int| #[trigger]
            child.maps(k, m) ==> m < n && self.maps(k, m) && page_of(child.pte(k, m)) == page_of(
                self.pte(k, m),
            ) && !flag(child.pte(k, m), PTE_W) && k.frames[page_of(self.pte(k, m))].refs >= 2
    }

    /// The same pages are there in `k0` and `k1`, each in the same frame.
    #[verifier::opaque]
    pub open spec fn same_frames(self, k0: KmemState, k1: KmemState) -> bool {
        forall|m: int| #[trigger]
            self.maps(k1, m) == self.maps(k0, m) && (self.maps(k0, m) ==> page_of(self.pte(k1, m))
                == page_of(self.pte(k0, m)))
    }

    proof fn lemma_same_frames(self, k0: KmemState, k1: KmemState, k2: KmemState)
        ensures
            self.same_frames(k0, k0),
            self.same_frames(k0, k1) && self.same_frames(k1, k2) ==> self.same_frames(k0, k2),
    {
        reveal(Uvm::same_frames);
        if self.same_frames(k0, k1) && self.same_frames(k1, k2) {
            assert forall|m: int| #[trigger]
                self.maps(k2, m) == self.maps(k0, m) && (self.maps(k0, m) ==> page_of(
                    self.pte(k2, m),
                ) == page_of(self.pte(k0, m))) by {
                assert(self.maps(k1, m) == self.maps(k0, m));
            }
        }
    }

    /// Frames but those of the tables of `self` and `child` keep their contents, and those that
    /// are not of `self` either their counts.
    pub open spec fn kept(self, child: Uvm, k0: KmemState, k1: KmemState) -> bool {
        forall|p: u64| #[trigger]
            k0.frames.contains_key(p) && !self.0.is_node(p) && !child.0.is_node(p)
                ==> k1.frames.contains_key(p) && k1.frames[p].content == k0.frames[p].content && (
            !self.owns(k0, p) ==> k1.frames[p].refs == k0.frames[p].refs)
    }
}

impl Uvm {
    /// Shares the page at `va` with `child`, if it is there.
    #[verifier::rlimit(40)]
    fn share_page(&mut self, kmem: &mut Kmem, child: &mut Uvm, va: u64) -> (r: Result<(), VmError>)
        requires
            old(kmem).wf(),
            old(self).wf(old(kmem)@),
            old(child).wf(old(kmem)@),
            va % PGSIZE == 0,
            va + 2 * PGSIZE <= u64::MAX,
            old(self).shares(*old(child), old(kmem)@, va as int / (PGSIZE as int)),
            old(self).mem(old(kmem)@).share_page(
                old(child).mem(old(kmem)@),
                va as int / (PGSIZE as int),
            ) is Some,
        ensures
            final(kmem).wf(),
            *final(self) == *old(self),
            final(self).wf(final(kmem)@),
            final(child).wf(final(kmem)@),
            final(self).shares(*final(child), final(kmem)@, va as int / (PGSIZE as int) + 1),
            old(self).kept(*old(child), old(kmem)@, final(kmem)@),
            Some(
                Forked {
                    parent: final(self).mem(final(kmem)@),
                    child: final(child).mem(final(kmem)@),
                    result: r,
                },
            ) == old(self).mem(old(kmem)@).share_page(
                old(child).mem(old(kmem)@),
                va as int / (PGSIZE as int),
            ),
            forall|p: u64| #[trigger]
                final(self).owns(final(kmem)@, p) == old(self).owns(old(kmem)@, p),
            forall|p: u64| #[trigger]
                final(child).0.is_node(p) ==> old(child).0.is_node(p) || old(
                    kmem,
                )@.free.contains(p),
            r is Ok ==> forall|p: u64| #[trigger]
                final(kmem)@.free.contains(p) ==> old(kmem)@.free.contains(p),
            old(self).same_frames(old(kmem)@, final(kmem)@),
            forall|m: int|
                UPAGES <= m ==> #[trigger] final(self).pte(final(kmem)@, m) == old(self).pte(
                    old(kmem)@,
                    m,
                ),
            forall|m: int|
                UPAGES <= m ==> #[trigger] final(child).pte(final(kmem)@, m) == old(child).pte(
                    old(kmem)@,
                    m,
                ),
    {
        let ghost k0 = kmem@;
        let ghost c0 = *child;
        let ghost n = va as int / (PGSIZE as int);
        proof {
            kmem.lemma_wf();
            self.lemma_owns(k0);
            child.lemma_owns(k0);
            assert(n * PGSIZE == va);
            if n < MAXPAGES {
                lemma_mem(*self, k0, n);
            }
            crate::vm::lemma_zero_invalid();
            self.lemma_same_frames(k0, k0, k0);
        }
        let mut pte = match self.0.walk(kmem, VA(va)) {
            // intermediate page is absent, lazily allocated
            Err(_) => {
                return Ok(());
            },
            Ok(pte) => {
                // leaf pte is absent, lazily allocated
                if !pte.is_v() {
                    return Ok(());
                }
                pte
            },
        };
        let ghost p0 = pte.0;
        let ghost pa = page_of(p0);
        proof {
            lemma_cow_pte(p0);
            lemma_flags(p0);
            lemma_flags(cow_pte(p0));
            assert(self.maps(k0, n));
            assert(self.page_ok(k0, n));
        }
        // if PTE_W is set, clear it and set COW bit for both parent and child.
        if pte.is_w() {
            pte = PageTableEntry((pte.0 & !PTE_W) | PTE_COW);
        }
        assert(pte.0 == cow_pte(p0));
        self.0.set(kmem, VA(va), pte);
        let ghost k1 = kmem@;
        proof {
            kmem.lemma_wf();
            lemma_only(*self, k0, k1, va, pte.0);
            self.lemma_retag(k0, k1, n, pte.0);
            assert forall|p: u64| #[trigger] c0.owns(k0, p) implies k1.frames.contains_key(p)
                && k1.frames[p] == k0.frames[p] by {
                assert(k0.frames.contains_key(p));
                if !c0.0.is_node(p) {
                    let m = choose|m: int| #[trigger] c0.maps(k0, m) && page_of(c0.pte(k0, m)) == p;
                    assert(c0.maps(k0, m));
                    assert(self.maps(k0, m));
                }
            }
            c0.lemma_untouched(k0, k1);
            c0.lemma_owns(k1);
            self.lemma_owns(k1);
            lemma_mem(c0, k1, n);
            assert forall|a: int| va <= a < va + PGSIZE implies !flag(
                #[trigger] c0.0.entry(k1, a),
                PTE_V,
            ) by {
                lemma_entry_page(c0.0, k1, a);
                assert(a / (PGSIZE as int) == n);
                assert(c0.pte(k1, n) == c0.pte(k0, n));
                lemma_mem(c0, k0, n);
            }
            reveal_with_fuel(Shape::map_run, 2);
            assert(crate::kalloc::page_ok(pa));
        }
        // map child's virtual address to the same physical address as the parent.
        match child.0.map_pages(kmem, VA(va), pte.as_pa(), PGSIZE, pte.flags()) {
            Ok(()) => {
                let ghost k2 = kmem@;
                // increment the reference count for the page, it's now shared between parent and
                // child.
                proof {
                    kmem.lemma_wf();
                    assert(!c0.0.is_node(pa)) by {
                        c0.0.lemma_nodes_live(k1);
                    }
                    assert(k1.frames.contains_key(pa));
                    assert(k2.frames[pa] == k1.frames[pa]);
                }
                kmem.increment_ref(pte.as_pa().0);
                proof {
                    let e = entry_of(pa) | flags_of(pte.0) | PTE_V;
                    lemma_shared_pte(pte.0, pa);
                    assert forall|m: int| 0 <= m implies #[trigger] child.pte(k2, m) == (if m == n {
                        e
                    } else {
                        c0.pte(k1, m)
                    }) by {
                        assert(m * PGSIZE / (PGSIZE as int) == m);
                        assert(child.0.entry(k2, m * PGSIZE) == child.pte(k2, m));
                        if m == n {
                            assert((m * PGSIZE - va) / (PGSIZE as int) * PGSIZE == 0);
                        } else if m < n {
                            assert(m * PGSIZE < va);
                        } else {
                            assert(m * PGSIZE >= va + PGSIZE);
                        }
                    }
                    self.lemma_shared(c0, *child, k0, k1, k2, kmem@, n, pte.0);
                    reveal(Uvm::same_frames);
                    assert forall|m: int| #[trigger]
                        self.maps(kmem@, m) == self.maps(k0, m) && (self.maps(k0, m) ==> page_of(
                            self.pte(kmem@, m),
                        ) == page_of(self.pte(k0, m))) by {
                        if 0 <= m && m != n {
                            assert(self.pte(kmem@, m) == self.pte(k0, m));
                        }
                    }
                }
                Ok(())
            },
            Err(err) => {
                let ghost k2 = kmem@;
                let ghost c2 = *child;
                proof {
                    kmem.lemma_wf();
                    c0.lemma_grown(k1, c2, k2);
                    self.lemma_beside(c0, c2, k1, k2);
                    assert forall|m: int| #[trigger] c2.maps(k2, m) == c0.maps(k0, m) by {
                        if 0 <= m {
                            assert(c2.pte(k2, m) == c0.pte(k1, m));
                            assert(c0.pte(k1, m) == c0.pte(k0, m));
                        }
                        assert(c0.maps(k1, m) == c0.maps(k0, m));
                    }
                    assert forall|m: int|
                        0 <= m < n && m >= UPAGES implies !(#[trigger] c2.mem(k2).pages.contains_key(m)) by {}
                }
                child.unmap(kmem, VA(0), va / PGSIZE, true);
                proof {
                    self.lemma_undone(c0, c2, *child, k0, k1, k2, kmem@, n, pte.0);
                    reveal(Uvm::same_frames);
                    assert forall|m: int| #[trigger]
                        self.maps(kmem@, m) == self.maps(k0, m) && (self.maps(k0, m) ==> page_of(
                            self.pte(kmem@, m),
                        ) == page_of(self.pte(k0, m))) by {
                        if 0 <= m && m != n {
                            assert(self.pte(kmem@, m) == self.pte(k0, m));
                        }
                    }
                }
                Err(err)
            },
        }
    }
}

/// The entry of the child is that of the parent.
proof fn lemma_shared_pte(pte: u64, pa: u64)
    requires
        crate::kalloc::page_ok(pa),
        flag(pte, PTE_V),
        page_of(pte) == pa,
    ensures
        page_of(entry_of(pa) | flags_of(pte) | PTE_V) == pa,
        flags_of(entry_of(pa) | flags_of(pte) | PTE_V) == flags_of(pte),
        flag(entry_of(pa) | flags_of(pte) | PTE_V, PTE_V),
        flag(entry_of(pa) | flags_of(pte) | PTE_V, PTE_W) == flag(pte, PTE_W),
        leaf(entry_of(pa) | flags_of(pte) | PTE_V) == leaf(pte),
        plain(entry_of(pa) | flags_of(pte) | PTE_V),
{
    let f = flags_of(pte);
    let e = entry_of(pa);
    lemma_flags(pte);
    assert(f | 1 == f) by (bit_vector)
        requires
            f == pte & 0x3FF,
            pte & 1 != 0,
    ;
    assert(e | f | 1 == e | (f | 1)) by (bit_vector);
    law_pte_roundtrip(pa, f);
    lemma_flags(e | f);
}

impl Uvm {
    /// What `child` growing means for `self` beside it.
    proof fn lemma_beside(self, c1: Uvm, c2: Uvm, k1: KmemState, k2: KmemState)
        requires
            self.wf(k1),
            kmem_ok(k1),
            c1.0.grew(k1, c2.0, k2),
            c1.0.wf(k1),
            forall|p: u64| #[trigger] self.0.is_node(p) ==> !c1.0.is_node(p),
        ensures
            self.wf(k2),
            self.mem(k2).pages == self.mem(k1).pages,
            forall|m: int| #[trigger] self.pte(k2, m) == self.pte(k1, m),
            forall|m: int| #[trigger] self.maps(k2, m) == self.maps(k1, m),
            forall|p: u64| #[trigger] self.owns(k2, p) == self.owns(k1, p),
            forall|p: u64| #[trigger] self.0.is_node(p) ==> !c2.0.is_node(p),
    {
        self.lemma_owns(k1);
        c1.0.lemma_nodes_live(k1);
        assert forall|p: u64| #[trigger] self.owns(k1, p) implies k2.frames.contains_key(p)
            && k2.frames[p] == k1.frames[p] by {
            assert(k1.frames.contains_key(p));
            if !self.0.is_node(p) {
                let m = choose|m: int| #[trigger] self.maps(k1, m) && page_of(self.pte(k1, m)) == p;
                assert(self.maps(k1, m));
                assert(self.page_ok(k1, m));
            }
        }
        self.lemma_untouched(k1, k2);
        assert forall|p: u64| #[trigger] self.0.is_node(p) implies !c2.0.is_node(p) by {
            assert(self.owns(k1, p));
            assert(!k1.free.contains(p));
        }
    }

    /// Both have page `n` after the child was mapped and the frame counted.
    #[verifier::rlimit(60)]
    proof fn lemma_shared(
        self,
        c0: Uvm,
        c2: Uvm,
        k0: KmemState,
        k1: KmemState,
        k2: KmemState,
        k3: KmemState,
        n: int,
        pte: u64,
    )
        requires
            self.wf(k0),
            kmem_ok(k0),
            kmem_ok(k1),
            c0.wf(k0),
            self.shares(c0, k0, n),
            self.maps(k0, n),
            k0.frames[page_of(pte)].refs < u8::MAX,
            pte == cow_pte(self.pte(k0, n)),
            leaf(pte),
            only(self, k0, k1, n, pte),
            self.0.grew(k0, self.0, k1),
            k1.free == k0.free,
            self.wf(k1),
            self.mem(k1).pages == self.mem(k0).pages.insert(
                n,
                UserPage { flags: flags_of(pte), ..self.page(k0, n) },
            ),
            forall|m: int| #[trigger] self.maps(k1, m) == self.maps(k0, m),
            forall|p: u64| #[trigger] self.owns(k1, p) == self.owns(k0, p),
            c0.wf(k1),
            c0.mem(k1).pages == c0.mem(k0).pages,
            forall|m: int| #[trigger] c0.pte(k1, m) == c0.pte(k0, m),
            forall|m: int| #[trigger] c0.maps(k1, m) == c0.maps(k0, m),
            !c0.mem(k0).pages.contains_key(n),
            c0.0.grew(k1, c2.0, k2),
            c2.0.wf(k2),
            forall|m: int|
                0 <= m ==> #[trigger] c2.pte(k2, m) == (if m == n {
                    entry_of(page_of(pte)) | flags_of(pte) | PTE_V
                } else {
                    c0.pte(k1, m)
                }),
            k3 == (KmemState {
                frames: k2.frames.insert(
                    page_of(pte),
                    FrameState {
                        refs: (k2.frames[page_of(pte)].refs + 1) as u8,
                        ..k2.frames[page_of(pte)]
                    },
                ),
                ..k2
            }),
        ensures
            self.wf(k3),
            c2.wf(k3),
            self.shares(c2, k3, n + 1),
            self.kept(c0, k0, k3),
            ({
                let page = self.mem(k0).pages[n];
                let both = UserPage {
                    flags: flags_of(pte),
                    data: page.data,
                    refs: (page.refs + 1) as u8,
                };
                &&& self.mem(k3).pages == self.mem(k0).pages.insert(n, both)
                &&& c2.mem(k3).pages == c0.mem(k0).pages.insert(n, both)
            }),
            forall|p: u64| #[trigger] self.owns(k3, p) == self.owns(k0, p),
            forall|p: u64| #[trigger]
                c2.0.is_node(p) ==> c0.0.is_node(p) || k0.free.contains(p),
            self.pte(k3, n) == pte,
            forall|m: int| 0 <= m && m != n ==> #[trigger] self.pte(k3, m) == self.pte(k0, m),
            forall|m: int| 0 <= m && m != n ==> #[trigger] c2.pte(k3, m) == c0.pte(k0, m),
    {
        let pa = page_of(pte);
        let e = entry_of(pa) | flags_of(pte) | PTE_V;
        lemma_cow_pte(self.pte(k0, n));
        self.lemma_owns(k0);
        self.lemma_owns(k1);
        c0.lemma_owns(k0);
        c0.lemma_owns(k1);
        assert(self.page_ok(k0, n));
        assert(self.owns(k0, pa));
        lemma_shared_pte(pte, pa);
        lemma_mem(self, k0, n);
        lemma_mem(c0, k0, n);
        // the parent
        self.lemma_beside(c0, c2, k1, k2);
        self.lemma_owns(k2);
        self.lemma_recounted(k2, k3);
        assert(k1.frames.contains_key(pa) && k1.frames[pa] == k0.frames[pa]);
        assert(k2.frames[pa] == k1.frames[pa]);
        assert forall|m: int| #[trigger] self.maps(k0, m) && m != n implies page_of(self.pte(k0, m))
            != pa by {
            assert(self.maps(k0, n));
        }
        let both = UserPage {
            flags: flags_of(pte),
            data: self.mem(k0).pages[n].data,
            refs: (self.mem(k0).pages[n].refs + 1) as u8,
        };
        assert(self.mem(k3).pages =~= self.mem(k0).pages.insert(n, both)) by {
            assert(self.mem(k3).pages.dom() == self.mem(k1).pages.dom());
            assert(self.mem(k1).pages.dom() =~= self.mem(k0).pages.insert(n, both).dom());
            assert forall|m: int| #[trigger] self.mem(k0).pages.insert(n, both).contains_key(m) implies self.mem(
                k3,
            ).pages[m] == self.mem(k0).pages.insert(n, both)[m] by {
                assert(self.mem(k2).pages.contains_key(m));
                if m < UPAGES {
                    assert(self.maps(k0, m));
                    assert(self.pte(k2, m) == self.pte(k1, m));
                    assert(self.maps(k1, m));
                    assert(self.owns(k1, page_of(self.pte(k1, m))));
                    assert(self.owns(k2, page_of(self.pte(k2, m))));
                }
            }
        }
        // the child
        c0.0.lemma_nodes_live(k1);
        c2.0.lemma_nodes_live(k2);
        assert(!c2.0.is_node(pa)) by {
            if c2.0.is_node(pa) {
                assert(k2.is_table(pa));
            }
        }
        lemma_pt_frame(c2.0, k2, k3);
        assert forall|m: int| 0 <= m implies #[trigger] c2.pte(k3, m) == (if m == n {
            e
        } else {
            c0.pte(k0, m)
        }) by {
            assert(c2.pte(k2, m) == c2.pte(k3, m));
            assert(c0.pte(k1, m) == c0.pte(k0, m));
        }
        assert(c2.maps(k3, n));
        assert forall|m: int| m != n implies #[trigger] c2.maps(k3, m) == c0.maps(k0, m) by {
            if 0 <= m {
                assert(c2.pte(k3, m) == c0.pte(k0, m));
            }
        }
        assert forall|m: int| #[trigger] c0.maps(k0, m) implies m != n && page_of(c0.pte(k0, m)) != pa
            && k3.frames.contains_key(page_of(c0.pte(k0, m))) && k3.frames[page_of(c0.pte(k0, m))]
            == k0.frames[page_of(c0.pte(k0, m))] by {
            assert(self.maps(k0, m));
            let q = page_of(c0.pte(k0, m));
            assert(c0.page_ok(k0, m));
            assert(k0.frames.contains_key(q));
            assert(k1.frames.contains_key(q) && k1.frames[q] == k0.frames[q]);
            assert(k2.frames.contains_key(q) && k2.frames[q] == k1.frames[q]);
        }
        assert forall|m: int| #[trigger] c2.maps(k3, m) implies c2.page_ok(k3, m) by {
            if m != n {
                assert(c0.maps(k0, m));
                assert(c0.page_ok(k0, m));
            }
        }
        assert forall|a: int, b: int|
            #![trigger c2.maps(k3, a), c2.maps(k3, b)]
            c2.maps(k3, a) && c2.maps(k3, b) && a != b implies page_of(c2.pte(k3, a)) != page_of(
            c2.pte(k3, b),
        ) by {
            if a != n {
                assert(c0.maps(k0, a));
            }
            if b != n {
                assert(c0.maps(k0, b));
            }
        }
        assert(c2.mem(k3).pages =~= c0.mem(k0).pages.insert(n, both)) by {
            assert forall|m: int| 0 <= m < MAXPAGES && m != n && flag(c0.pte(k0, m), PTE_V) implies #[trigger] c2.page(
                k3,
                m,
            ) == c0.page(k0, m) by {
                if m < UPAGES {
                    assert(c0.maps(k0, m));
                }
            }
            assert forall|m: int| 0 <= m < MAXPAGES && m != n implies flag(c2.pte(k3, m), PTE_V) == flag(
                c0.pte(k0, m),
                PTE_V,
            ) by {}
        }
        assert(self.shares(c2, k3, n + 1)) by {
            assert forall|m: int| #[trigger] c2.maps(k3, m) implies m < n + 1 && self.maps(k3, m)
                && page_of(c2.pte(k3, m)) == page_of(self.pte(k3, m)) && !flag(
                c2.pte(k3, m),
                PTE_W,
            ) && k3.frames[page_of(self.pte(k3, m))].refs >= 2 by {
                if m == n {
                    assert(self.pte(k3, n) == self.pte(k2, n));
                    assert(self.pte(k2, n) == self.pte(k1, n));
                    assert(self.maps(k1, n));
                } else {
                    assert(c0.maps(k0, m));
                    assert(self.maps(k0, m));
                    assert(self.pte(k3, m) == self.pte(k2, m));
                    assert(self.pte(k2, m) == self.pte(k1, m));
                    assert(self.maps(k1, m));
                }
            }
        }
        assert(self.kept(c0, k0, k3)) by {
            assert forall|p: u64| #[trigger]
                k0.frames.contains_key(p) && !self.0.is_node(p) && !c0.0.is_node(p) implies k3.frames.contains_key(
                p,
            ) && k3.frames[p].content == k0.frames[p].content && (!self.owns(k0, p)
                ==> k3.frames[p].refs == k0.frames[p].refs) by {
                assert(k1.frames.contains_key(p) && k1.frames[p] == k0.frames[p]);
                assert(k2.frames.contains_key(p) && k2.frames[p] == k1.frames[p]);
            }
        }
        assert forall|m: int| 0 <= m && m != n implies #[trigger] self.pte(k3, m) == self.pte(k0, m) by {
            assert(self.pte(k3, m) == self.pte(k2, m));
            assert(self.pte(k2, m) == self.pte(k1, m));
            assert(self.pte(k1, m) == self.pte(k0, m));
        }
    }

    /// The child lost its pages after it could not be mapped.
    #[verifier::rlimit(60)]
    proof fn lemma_undone(
        self,
        c0: Uvm,
        c2: Uvm,
        c3: Uvm,
        k0: KmemState,
        k1: KmemState,
        k2: KmemState,
        k3: KmemState,
        n: int,
        pte: u64,
    )
        requires
            self.wf(k0),
            kmem_ok(k0),
            kmem_ok(k1),
            kmem_ok(k2),
            c0.wf(k0),
            self.shares(c0, k0, n),
            self.maps(k0, n),
            only(self, k0, k1, n, pte),
            self.0.grew(k0, self.0, k1),
            k1.free == k0.free,
            self.wf(k1),
            self.mem(k1).pages == self.mem(k0).pages.insert(
                n,
                UserPage { flags: flags_of(pte), ..self.page(k0, n) },
            ),
            forall|m: int| #[trigger] self.maps(k1, m) == self.maps(k0, m),
            forall|p: u64| #[trigger] self.owns(k1, p) == self.owns(k0, p),
            page_of(pte) == page_of(self.pte(k0, n)),
            c0.wf(k1),
            c0.mem(k1).pages == c0.mem(k0).pages,
            c0.0.grew(k1, c2.0, k2),
            c2.wf(k2),
            c2.mem(k2).pages == c0.mem(k0).pages,
            forall|m: int| #[trigger] c2.maps(k2, m) == c0.maps(k0, m),
            forall|m: int| 0 <= m ==> #[trigger] c2.pte(k2, m) == c0.pte(k0, m),
            self.wf(k2),
            self.mem(k2).pages == self.mem(k1).pages,
            forall|m: int| #[trigger] self.pte(k2, m) == self.pte(k1, m),
            forall|p: u64| #[trigger] self.owns(k2, p) == self.owns(k1, p),
            forall|p: u64| #[trigger] self.0.is_node(p) ==> !c2.0.is_node(p),
            c3 == c2,
            c3.wf(k3),
            c2.apart(k2, c3, k3),
            c3.mem(k3) == c2.mem(k2).unmap(0, n as nat),
        ensures
            self.wf(k3),
            self.shares(c3, k3, n + 1),
            self.kept(c0, k0, k3),
            self.mem(k3).pages == UserMem::unshare(
                self.mem(k0).pages.insert(
                    n,
                    UserPage { flags: flags_of(pte), ..self.page(k0, n) },
                ),
                c3.mem(k3).pages,
                n,
                c0.mem(k0).pages,
            ),
            forall|p: u64| #[trigger] self.owns(k3, p) == self.owns(k0, p),
            self.pte(k3, n) == pte,
            forall|m: int| 0 <= m && m != n ==> #[trigger] self.pte(k3, m) == self.pte(k0, m),
    {
        self.lemma_owns(k0);
        self.lemma_owns(k1);
        self.lemma_owns(k2);
        c0.lemma_owns(k0);
        c2.lemma_owns(k2);
        lemma_unmap(c2.mem(k2), 0, n as nat);
        // the child has no pages left
        assert forall|m: int| !c3.maps(k3, m) by {
            if c3.maps(k3, m) {
                lemma_mem(c3, k3, m);
                assert(c2.mem(k2).pages.contains_key(m));
                lemma_mem(c2, k2, m);
                assert(c2.maps(k2, m));
                assert(c0.maps(k0, m));
            }
        }
        // frames of the parent keep their contents
        assert forall|p: u64| #[trigger] self.owns(k2, p) implies k3.frames.contains_key(p)
            && k3.frames[p].content == k2.frames[p].content && k3.frames[p].refs == (if c2.owns(
            k2,
            p,
        ) {
            k2.frames[p].refs - 1
        } else {
            k2.frames[p].refs as int
        }) by {
            assert(c2.frame_apart(k2, c3, k3, p));
            if c2.owns(k2, p) {
                if self.0.is_node(p) {
                    let m = choose|m: int| #[trigger] c2.maps(k2, m) && page_of(c2.pte(k2, m)) == p;
                    assert(c2.maps(k2, m));
                    assert(c0.maps(k0, m));
                    assert(self.maps(k0, m));
                }
                assert(!c2.0.is_node(p)) by {
                    if c2.0.is_node(p) {
                        c2.0.lemma_nodes_live(k2);
                        assert(k2.is_table(p));
                        let m = choose|m: int| #[trigger]
                            self.maps(k2, m) && page_of(self.pte(k2, m)) == p;
                        assert(self.maps(k2, m));
                        assert(self.page_ok(k2, m));
                    }
                }
                let m = choose|m: int| #[trigger] c2.maps(k2, m) && page_of(c2.pte(k2, m)) == p;
                assert(c2.maps(k2, m));
                assert(c0.maps(k0, m));
                assert(self.maps(k0, m) && m < n);
                assert(k0.frames[p].refs >= 2);
                assert(k1.frames.contains_key(p) && k1.frames[p] == k0.frames[p]) by {
                    assert(k0.frames.contains_key(p));
                }
                assert(!c0.0.is_node(p)) by {
                    c0.0.lemma_nodes_live(k0);
                    assert(self.page_ok(k0, m));
                }
                assert(k2.frames[p] == k1.frames[p]);
                assert(!c2.writes(k2, p)) by {
                    if c2.writes(k2, p) {
                        let j = choose|j: int| #[trigger]
                            c2.maps(k2, j) && page_of(c2.pte(k2, j)) == p && flag(
                                c2.pte(k2, j),
                                PTE_W,
                            );
                        assert(c2.maps(k2, j));
                        assert(c0.maps(k0, j));
                        assert(c2.pte(k2, j) == c0.pte(k0, j));
                    }
                }
                assert(!c3.owns(k3, p)) by {
                    if c3.owns(k3, p) {
                        assert(c3.0.is_node(p));
                    }
                }
            }
        }
        assert forall|p: u64| #[trigger] self.0.is_node(p) implies k3.frames[p].refs == k2.frames[p].refs by {
            assert(self.owns(k2, p));
            if c2.owns(k2, p) {
                let m = choose|m: int| #[trigger] c2.maps(k2, m) && page_of(c2.pte(k2, m)) == p;
                assert(c2.maps(k2, m));
                assert(c0.maps(k0, m));
                assert(self.maps(k0, m));
                assert(c2.pte(k2, m) == c0.pte(k0, m));
            }
        }
        self.lemma_recounted(k2, k3);
        let tagged = self.mem(k0).pages.insert(
            n,
            UserPage { flags: flags_of(pte), ..self.page(k0, n) },
        );
        let want = UserMem::unshare(tagged, c3.mem(k3).pages, n, c0.mem(k0).pages);
        lemma_mem(self, k0, n);
        assert(self.mem(k3).pages =~= want) by {
            assert forall|m: int| #[trigger] tagged.contains_key(m) implies self.mem(k3).pages[m]
                == want[m] by {
                assert(self.mem(k2).pages.contains_key(m));
                if m < UPAGES {
                    lemma_mem(self, k0, m);
                    assert(self.maps(k0, m));
                    assert(self.maps(k1, m));
                    assert(self.pte(k2, m) == self.pte(k1, m));
                    let p = page_of(self.pte(k2, m));
                    assert(p == page_of(self.pte(k0, m)));
                    assert(self.owns(k1, p));
                    assert(self.owns(k2, p));
                    lemma_mem(c0, k0, m);
                    if c2.owns(k2, p) {
                        assert(!c2.0.is_node(p)) by {
                            c2.0.lemma_nodes_live(k2);
                            assert(self.maps(k2, m));
                            assert(self.page_ok(k2, m));
                        }
                        let j = choose|j: int| #[trigger]
                            c2.maps(k2, j) && page_of(c2.pte(k2, j)) == p;
                        assert(c2.maps(k2, j));
                        assert(c0.maps(k0, j));
                        assert(c2.pte(k2, j) == c0.pte(k0, j));
                        assert(self.maps(k0, j));
                        assert(j == m);
                    } else if c0.mem(k0).pages.contains_key(m) && 0 <= m < n {
                        assert(c0.maps(k0, m));
                        assert(c2.maps(k2, m));
                        assert(c2.pte(k2, m) == c0.pte(k0, m));
                        assert(c2.owns(k2, p));
                    }
                } else {
                    lemma_mem(c0, k0, m);
                }
            }
        }
        assert(self.kept(c0, k0, k3)) by {
            assert forall|p: u64| #[trigger]
                k0.frames.contains_key(p) && !self.0.is_node(p) && !c0.0.is_node(p) implies k3.frames.contains_key(
                p,
            ) && k3.frames[p].content == k0.frames[p].content && (!self.owns(k0, p)
                ==> k3.frames[p].refs == k0.frames[p].refs) by {
                assert(k1.frames.contains_key(p) && k1.frames[p] == k0.frames[p]);
                assert(k2.frames.contains_key(p) && k2.frames[p] == k1.frames[p]);
                if self.owns(k2, p) {
                } else {
                    assert(c2.frame_apart(k2, c3, k3, p));
                    if c2.owns(k2, p) {
                        if c2.0.is_node(p) {
                            assert(k1.free.contains(p));
                        }
                        let m = choose|m: int| #[trigger] c2.maps(k2, m) && page_of(c2.pte(k2, m)) == p;
                        assert(c2.maps(k2, m));
                        assert(c0.maps(k0, m));
                        assert(c2.pte(k2, m) == c0.pte(k0, m));
                        assert(self.maps(k0, m));
                        assert(self.owns(k0, p));
                    }
                }
            }
        }
        assert forall|m: int| 0 <= m && m != n implies #[trigger] self.pte(k3, m) == self.pte(k0, m) by {
            assert(self.pte(k3, m) == self.pte(k2, m));
            assert(self.pte(k2, m) == self.pte(k1, m));
            assert(self.pte(k1, m) == self.pte(k0, m));
        }
    }
}

/// Removing a range of pages leaves those beside it.
pub(crate) proof fn lemma_unmap(m: UserMem, n: int, count: nat)
    ensures
        forall|i: int| #[trigger]
            m.unmap(n, count).pages.contains_key(i) == (m.pages.contains_key(i) && !(n <= i < n
                + count)),
        forall|i: int| #[trigger]
            m.unmap(n, count).pages.contains_key(i) ==> m.unmap(n, count).pages[i] == m.pages[i],
        m.unmap(n, count).shape == m.shape,
        m.unmap(n, count).left >= m.left,
    decreases count,
{
    if count > 0 {
        lemma_unmap(m.drop_page(n), n + 1, (count - 1) as nat);
    }
}

impl Uvm {
    /// Copies this process's (parent's) page table and its memory into a child's page table.
    /// Instead of copying the physical memory, we set up copy-on-write (COW) mappings for both
    /// parent and child. The child has no pages yet.
    #[verifier::rlimit(40)]
    pub fn copy(&mut self, kmem: &mut Kmem, child: &mut Uvm, size: u64) -> (r: Result<(), VmError>)
        requires
            old(kmem).wf(),
            old(self).wf(old(kmem)@),
            old(child).wf(old(kmem)@),
            old(self).shares(*old(child), old(kmem)@, 0),
            size + 2 * PGSIZE <= u64::MAX,
            old(self).mem(old(kmem)@).share(
                old(child).mem(old(kmem)@),
                0,
                round_up(size as int) / (PGSIZE as int),
            ) is Some,
        ensures
            final(kmem).wf(),
            *final(self) == *old(self),
            final(self).wf(final(kmem)@),
            final(child).wf(final(kmem)@),
            Some(
                Forked {
                    parent: final(self).mem(final(kmem)@),
                    child: final(child).mem(final(kmem)@),
                    result: r,
                },
            ) == old(self).mem(old(kmem)@).share(
                old(child).mem(old(kmem)@),
                0,
                round_up(size as int) / (PGSIZE as int),
            ),
            old(self).kept(*old(child), old(kmem)@, final(kmem)@),
            old(self).same_frames(old(kmem)@, final(kmem)@),
            r is Ok ==> exists|n: int| #[trigger]
                final(self).shares(*final(child), final(kmem)@, n),
            r is Ok ==> forall|p: u64| #[trigger]
                final(kmem)@.free.contains(p) ==> old(kmem)@.free.contains(p),
            forall|p: u64| #[trigger] final(self).0.is_node(p) ==> !final(child).0.is_node(p),
            forall|p: u64| #[trigger]
                final(self).owns(final(kmem)@, p) == old(self).owns(old(kmem)@, p),
            forall|p: u64| #[trigger]
                final(child).0.is_node(p) ==> old(child).0.is_node(p) || old(
                    kmem,
                )@.free.contains(p),
            forall|p: u64| #[trigger]
                final(child).owns(final(kmem)@, p) ==> old(child).0.is_node(p) || old(
                    kmem,
                )@.free.contains(p) || old(self).owns(old(kmem)@, p),
            forall|m: int|
                UPAGES <= m ==> #[trigger] final(self).pte(final(kmem)@, m) == old(self).pte(
                    old(kmem)@,
                    m,
                ),
            forall|m: int|
                UPAGES <= m ==> #[trigger] final(child).pte(final(kmem)@, m) == old(child).pte(
                    old(kmem)@,
                    m,
                ),
    {
        let ghost k0 = kmem@;
        let ghost s0 = *self;
        let ghost c0 = *child;
        let ghost end = round_up(size as int) / (PGSIZE as int);
        let ghost want = s0.mem(k0).share(c0.mem(k0), 0, end);
        let mut i: u64 = 0;
        proof {
            self.lemma_same_frames(k0, k0, k0);
            kmem.lemma_wf();
            self.lemma_owns(k0);
        }
        while i < size
            invariant
                size + 2 * PGSIZE <= u64::MAX,
                i % PGSIZE == 0,
                i < size + PGSIZE,
                s0 == *old(self),
                *self == s0,
                c0 == *old(child),
                k0 == old(kmem)@,
                kmem_ok(k0),
                kmem.wf(),
                self.wf(kmem@),
                child.wf(kmem@),
                self.shares(*child, kmem@, i as int / (PGSIZE as int)),
                s0.kept(c0, k0, kmem@),
                s0.same_frames(k0, kmem@),
                end == round_up(size as int) / (PGSIZE as int),
                want is Some,
                want == s0.mem(k0).share(c0.mem(k0), 0, end),
                want == self.mem(kmem@).share(child.mem(kmem@), i as int / (PGSIZE as int), end),
                forall|p: u64| #[trigger] self.owns(kmem@, p) == s0.owns(k0, p),
                forall|p: u64| #[trigger]
                    child.0.is_node(p) ==> c0.0.is_node(p) || k0.free.contains(p),
                forall|p: u64| #[trigger] kmem@.free.contains(p) ==> k0.free.contains(p),
                forall|m: int| UPAGES <= m ==> #[trigger] self.pte(kmem@, m) == s0.pte(k0, m),
                forall|m: int| UPAGES <= m ==> #[trigger] child.pte(kmem@, m) == c0.pte(k0, m),
            decreases size + PGSIZE - i,
        {
            let ghost k1 = kmem@;
            let ghost c1 = *child;
            let ghost n = i as int / (PGSIZE as int);
            proof {
                kmem.lemma_wf();
                assert(n < end);
            }
            let r = self.share_page(kmem, child, i);
            proof {
                s0.lemma_same_frames(k0, k1, kmem@);
                assert(s0.kept(c0, k0, kmem@)) by {
                    assert forall|p: u64| #[trigger]
                        k0.frames.contains_key(p) && !s0.0.is_node(p) && !c0.0.is_node(p) implies kmem@.frames.contains_key(
                        p,
                    ) && kmem@.frames[p].content == k0.frames[p].content && (!s0.owns(k0, p)
                        ==> kmem@.frames[p].refs == k0.frames[p].refs) by {
                        assert(k1.frames.contains_key(p));
                        assert(!c1.0.is_node(p)) by {
                            if c1.0.is_node(p) {
                                assert(k0.free.contains(p));
                            }
                        }
                        assert(self.owns(k1, p) == s0.owns(k0, p));
                    }
                }
            }
            match r {
                Ok(()) => {},
                Err(e) => {
                    proof {
                        assert forall|p: u64| #[trigger] child.owns(kmem@, p) implies c0.0.is_node(p)
                            || k0.free.contains(p) || s0.owns(k0, p) by {
                            lemma_child_owns(*self, c0, c1, *child, s0, k0, k1, kmem@, n + 1, p);
                        }
                    }
                    return Err(e);
                },
            }
            proof {
                assert forall|p: u64| #[trigger] child.0.is_node(p) implies c0.0.is_node(p)
                    || k0.free.contains(p) by {
                    if !c1.0.is_node(p) {
                        assert(k1.free.contains(p));
                    }
                }
            }
            i = i + PGSIZE;
        }
        proof {
            assert forall|p: u64| #[trigger] child.owns(kmem@, p) implies c0.0.is_node(p)
                || k0.free.contains(p) || s0.owns(k0, p) by {
                lemma_child_owns(
                    *self,
                    c0,
                    *child,
                    *child,
                    s0,
                    k0,
                    kmem@,
                    kmem@,
                    i as int / (PGSIZE as int),
                    p,
                );
            }
        }
        Ok(())
    }
}

proof fn lemma_child_owns(
    parent: Uvm,
    c0: Uvm,
    c1: Uvm,
    c2: Uvm,
    s0: Uvm,
    k0: KmemState,
    k1: KmemState,
    k2: KmemState,
    n: int,
    p: u64,
)
    requires
        parent.shares(c2, k2, n),
        c2.owns(k2, p),
        forall|q: u64| #[trigger] parent.owns(k2, q) ==> s0.owns(k0, q),
        forall|q: u64| #[trigger] c2.0.is_node(q) ==> c1.0.is_node(q) || k1.free.contains(q),
        forall|q: u64| #[trigger] c1.0.is_node(q) ==> c0.0.is_node(q) || k0.free.contains(q),
        forall|q: u64| #[trigger] k1.free.contains(q) ==> k0.free.contains(q),
    ensures
        c0.0.is_node(p) || k0.free.contains(p) || s0.owns(k0, p),
{
    if c2.0.is_node(p) {
        if !c1.0.is_node(p) {
            assert(k1.free.contains(p));
        }
    } else {
        let m = choose|m: int| #[trigger] c2.maps(k2, m) && page_of(c2.pte(k2, m)) == p;
        assert(c2.maps(k2, m));
        assert(parent.maps(k2, m));
        assert(parent.owns(k2, p));
    }
}

impl Uvm {
    /// How the frame `p`, in use in `k0`, fares when `self` is freed: it is gone if no other
    /// process refers to it, else it has one reference less.
    pub open spec fn frame_freed(self, k0: KmemState, k1: KmemState, p: u64) -> bool {
        if !self.owns(k0, p) {
            k1.frames.contains_key(p) && k1.frames[p] == k0.frames[p]
        } else if k0.frames[p].refs == 1 {
            k1.free.contains(p)
        } else {
            &&& k1.frames.contains_key(p)
            &&& k1.frames[p].refs == k0.frames[p].refs - 1
            &&& !self.writes(k0, p) ==> k1.frames[p].content == k0.frames[p].content
        }
    }

    /// From `k0` to `k1` everything that `self` owned was given back.
    pub open spec fn all_freed(self, k0: KmemState, k1: KmemState) -> bool {
        &&& forall|p: u64| #[trigger] k0.frames.contains_key(p) ==> self.frame_freed(k0, k1, p)
        &&& forall|p: u64| #[trigger] k0.free.contains(p) ==> k1.free.contains(p)
        &&& forall|p: u64| #[trigger] k1.free.contains(p) ==> self.alone(k0, p)
    }

    /// Frees user memory pages, then frees page-table pages.
    ///
    /// The process has no pages beyond `size`.
    pub fn free(self, kmem: &mut Kmem, size: u64)
        requires
            old(kmem).wf(),
            self.wf(old(kmem)@),
            size + PGSIZE <= u64::MAX,
            forall|n: int| #[trigger]
                self.mem(old(kmem)@).pages.contains_key(n) ==> n < UPAGES && n < round_up(
                    size as int,
                ) / (PGSIZE as int),
        ensures
            final(kmem).wf(),
            self.all_freed(old(kmem)@, final(kmem)@),
    {
        let mut u = self;
        let ghost k0 = kmem@;
        proof {
            kmem.lemma_wf();
            u.lemma_refl(k0);
            u.lemma_owns(k0);
        }
        // there is nothing to unmap beyond the highest address
        let all: u64 = pg_round_up(size) / PGSIZE;
        let npages: u64 = if all < MAXPAGES {
            all
        } else {
            MAXPAGES
        };
        if size > 0 {
            u.unmap(kmem, VA(0), npages, true);
        }
        let ghost k1 = kmem@;
        proof {
            kmem.lemma_wf();
            lemma_unmap(u.mem(k0), 0, npages as nat);
            assert(u.mem(k1).pages =~= Map::empty()) by {
                assert forall|n: int| !u.mem(k1).pages.contains_key(n) by {
                    if size == 0 {
                        assert(!(u.mem(k0).pages.contains_key(n) && n >= 0));
                    }
                }
            }
            assert forall|a: int| 0 <= a implies !flag(#[trigger] u.0.entry(k1, a), PTE_V) by {
                if a < MAXVA {
                    let n = a / (PGSIZE as int);
                    lemma_entry_page(u.0, k1, a);
                    lemma_mem(u, k1, n);
                    assert(!u.mem(k1).pages.contains_key(n));
                } else {
                    lemma_beyond(u.0, k1, a);
                    crate::vm::lemma_zero_invalid();
                }
            }
            assert forall|n: int| !u.maps(k1, n) by {
                if 0 <= n < UPAGES {
                    lemma_mem(u, k1, n);
                    assert(!u.mem(k1).pages.contains_key(n));
                }
            }
            assert forall|p: u64| #[trigger] u.owns(k1, p) == u.0.is_node(p) by {}
            u.0.lemma_nodes_live(k1);
            u.0.lemma_nodes_live(k0);
        }
        u.0.free_walk(kmem);
        proof {
            let k2 = kmem@;
            assert(u == self);
            assert forall|p: u64| #[trigger] k0.frames.contains_key(p) implies self.frame_freed(
                k0,
                k2,
                p,
            ) by {
                assert(self.frame_apart(k0, u, k1, p));
                assert(u.owns(k1, p) == u.0.is_node(p));
                assert(k0.frames[p].refs >= 1);
                assert(k2.frames.contains_key(p) == (k1.frames.contains_key(p) && !u.0.is_node(p)));
                assert(k2.free.contains(p) == (k1.free.contains(p) || u.0.is_node(p)));
                if self.0.is_node(p) {
                    assert(k0.frames[p].refs == 1);
                } else if self.owns(k0, p) && k0.frames[p].refs == 1 {
                    assert(k1.free.contains(p));
                }
            }
            assert forall|p: u64| #[trigger] k2.free.contains(p) implies self.alone(k0, p) by {
                if self.0.is_node(p) {
                    assert(self.owns(k0, p));
                }
            }
            assert forall|p: u64| #[trigger] k0.free.contains(p) implies k2.free.contains(p) by {
                assert(k1.free.contains(p) || u.owns(k1, p));
            }
        }
    }

    /// Frees a process's page table, and frees the physical memory it refers to.
    pub fn proc_free(self, kmem: &mut Kmem, size: u64)
        requires
            old(kmem).wf(),
            self.wf(old(kmem)@),
            size + PGSIZE <= u64::MAX,
            forall|n: int| #[trigger]
                self.mem(old(kmem)@).pages.contains_key(n) && n < UPAGES ==> n < round_up(
                    size as int,
                ) / (PGSIZE as int),
            forall|n: int|
                UPAGES <= n < MAXPAGES && flag(#[trigger] self.pte(old(kmem)@, n), PTE_V) ==> leaf(
                    self.pte(old(kmem)@, n),
                ),
        ensures
            final(kmem).wf(),
            self.all_freed(old(kmem)@, final(kmem)@),
    {
        let mut u = self;
        let ghost k0 = kmem@;
        proof {
            kmem.lemma_wf();
        }
        u.unmap(kmem, VA(TRAMPOLINE), 1, false);
        let ghost k1 = kmem@;
        proof {
            kmem.lemma_wf();
            reveal_with_fuel(UserMem::forget, 2);
            assert(u.pte(k1, UPAGES as int) == u.pte(k0, UPAGES as int));
        }
        u.unmap(kmem, VA(TRAPFRAME), 1, false);
        let ghost k2 = kmem@;
        proof {
            assert(u == self);
            assert forall|n: int| #[trigger] u.mem(k2).pages.contains_key(n) implies n < UPAGES && n
                < round_up(size as int) / (PGSIZE as int) by {
                assert(u.mem(k0).pages.contains_key(n));
            }
        }
        proof {
            kmem.lemma_wf();
            self.lemma_owns(k0);
            self.lemma_owns(k2);
            assert forall|m: int| 0 <= m < UPAGES implies #[trigger] u.pte(k2, m) == u.pte(k0, m) by {
                assert(u.pte(k1, m) == u.pte(k0, m));
            }
            assert forall|m: int| #[trigger] u.maps(k2, m) == u.maps(k0, m) by {
                if 0 <= m < UPAGES {
                    assert(u.pte(k2, m) == u.pte(k0, m));
                }
            }
            lemma_same_pages(u, k0, k2);
            lemma_apart_trans(u, k0, u, k1, u, k2);
        }
        u.free(kmem, size);
        proof {
            let k3 = kmem@;
            assert forall|p: u64| #[trigger] k0.frames.contains_key(p) implies self.frame_freed(
                k0,
                k3,
                p,
            ) by {
                assert(self.frame_apart(k0, u, k2, p));
                assert(self.owns(k2, p) == self.owns(k0, p));
                assert(self.writes(k2, p) == self.writes(k0, p));
                assert(k2.frames.contains_key(p));
                assert(self.frame_freed(k2, k3, p));
            }
            assert forall|p: u64| #[trigger] k3.free.contains(p) implies self.alone(k0, p) by {
                assert(self.alone(k2, p));
                lemma_alone(u, k0, u, k2, p);
            }
            assert forall|p: u64| #[trigger] k0.free.contains(p) implies k3.free.contains(p) by {
                assert(k2.free.contains(p) || u.owns(k2, p));
                if u.owns(k2, p) {
                    assert(u.owns(k0, p));
                }
            }
        }
    }
}

/// The same pages mean the same frames.
proof fn lemma_same_pages(u: Uvm, k0: KmemState, k1: KmemState)
    requires
        forall|m: int| 0 <= m < UPAGES ==> #[trigger] u.pte(k1, m) == u.pte(k0, m),
        forall|m: int| #[trigger] u.maps(k1, m) == u.maps(k0, m),
    ensures
        forall|p: u64| #[trigger] u.owns(k1, p) == u.owns(k0, p),
        forall|p: u64| #[trigger] u.writes(k1, p) == u.writes(k0, p),
{
    assert forall|q: u64| #[trigger] u.owns(k1, q) == u.owns(k0, q) by {
        if u.owns(k1, q) && !u.0.is_node(q) {
            let m = choose|m: int| #[trigger] u.maps(k1, m) && page_of(u.pte(k1, m)) == q;
            assert(u.maps(k0, m));
        }
        if u.owns(k0, q) && !u.0.is_node(q) {
            let m = choose|m: int| #[trigger] u.maps(k0, m) && page_of(u.pte(k0, m)) == q;
            assert(u.maps(k1, m));
        }
    }
    assert forall|q: u64| #[trigger] u.writes(k1, q) == u.writes(k0, q) by {
        if u.writes(k1, q) {
            let m = choose|m: int| #[trigger]
                u.maps(k1, m) && page_of(u.pte(k1, m)) == q && flag(u.pte(k1, m), PTE_W);
            assert(u.maps(k0, m));
        }
        if u.writes(k0, q) {
            let m = choose|m: int| #[trigger]
                u.maps(k0, m) && page_of(u.pte(k0, m)) == q && flag(u.pte(k0, m), PTE_W);
            assert(u.maps(k1, m));
        }
    }
}

} // verus!
