//! Page faults, and copying between the kernel and user memory.
use vstd::prelude::*;
use crate::kalloc::{page_ok, zero_page, Content, Kmem, KmemState};
use crate::le::splice;
use crate::riscv::{
    entry_of,
    flags_of,
    law_pte_roundtrip,
    page_of,
    pg_round_down,
    plain,
    round_down,
    MAXVA,
    PGSIZE,
    PTE_COW,
    PTE_R,
    PTE_U,
    PTE_V,
    PTE_W,
};
use crate::vm::pagetable::tab_of;
use crate::vm::usermem::{UserMem, UserPage, MAXPAGES, UPAGES};
use crate::vm::uvm::{
    kmem_ok,
    lemma_apart_trans,
    lemma_beyond,
    lemma_entry_page,
    lemma_flags,
    lemma_mem,
    lemma_only,
    lemma_pt_frame,
    only,
    Uvm,
};
use crate::vm::{flag, leaf, PageTableEntry, VmError, PA, VA};

verus! {

/// What the entry of a copy becomes: writable, on the frame `p`.
proof fn lemma_copied_pte(pte: u64, p: u64)
    requires
        page_ok(p),
        flag(pte, PTE_V),
    ensures
        ({
            let flags = (flags_of(pte) & !PTE_COW) | PTE_W;
            let new = entry_of(p) | flags;
            page_of(new) == p && flags_of(new) == flags && plain(new) && flag(new, PTE_V) && leaf(new) && flag(
                new,
                PTE_W,
            )
        }),
{
    let flags = (flags_of(pte) & !PTE_COW) | PTE_W;
    assert(flags < 0x400 && flags & 1 == pte & 1 && flags & 4 != 0 && flags & (8u64 | 4u64 | 2u64)
        != 0) by (bit_vector)
        requires
            flags == ((pte & 0x3FF) & !256u64) | 4,
    ;
    law_pte_roundtrip(p, flags);
    lemma_flags(entry_of(p) | flags);
}

impl Uvm {
    /// Page `n` moves from the frame `old` to the new frame `p` with the same bytes.
    proof fn lemma_moved(
        self,
        k0: KmemState,
        k2: KmemState,
        k3: KmemState,
        k4: KmemState,
        n: int,
        p: u64,
        pte: u64,
    )
        requires
            self.wf(k0),
            kmem_ok(k0),
            self.maps(k0, n),
            k0.free.contains(p),
            k2 == k0.allocated(p, Content::Page(k0.page(page_of(self.pte(k0, n))))),
            self.0.wf(k3),
            self.0.grew(k2, self.0, k3),
            k3.free == k2.free,
            only(self, k2, k3, n, pte),
            page_of(pte) == p,
            flag(pte, PTE_V),
            leaf(pte),
            plain(pte),
            k4 == k3.released(page_of(self.pte(k0, n))),
        ensures
            self.wf(k4),
            self.apart(k0, self, k4),
            self.mem(k4).pages == self.mem(k0).pages.insert(
                n,
                UserPage {
                    flags: flags_of(pte),
                    data: k0.page(page_of(self.pte(k0, n))),
                    refs: 1,
                },
            ),
            k4.free.len() == (if k0.frames[page_of(self.pte(k0, n))].refs == 1 {
                k0.free.len() as int
            } else {
                k0.free.len() - 1
            }),
            only(self, k0, k4, n, pte),
    {
        let old_p = page_of(self.pte(k0, n));
        self.lemma_owns(k0);
        assert(self.page_ok(k0, n));
        assert(!self.owns(k0, p));
        lemma_pt_frame(self.0, k0, k2);
        self.0.lemma_nodes_live(k3);
        assert(k3.frames.contains_key(old_p) && k3.frames[old_p] == k0.frames[old_p]) by {
            assert(k2.frames.contains_key(old_p));
        }
        assert(k3.frames.contains_key(p) && k3.frames[p] == k2.frames[p]) by {
            assert(k2.frames.contains_key(p));
        }
        lemma_pt_frame(self.0, k3, k4);
        assert forall|m: int| 0 <= m implies #[trigger] self.pte(k4, m) == (if m == n {
            pte
        } else {
            self.pte(k0, m)
        }) by {
            assert(self.pte(k3, m) == self.pte(k4, m));
            assert(self.pte(k2, m) == self.pte(k0, m));
        }
        assert forall|m: int| #[trigger] self.maps(k4, m) == self.maps(k0, m) by {
            if 0 <= m {
                assert(self.pte(k4, m) == self.pte(k4, m));
            }
        }
        assert forall|m: int| #[trigger] self.maps(k0, m) && m != n implies page_of(self.pte(k4, m))
            == page_of(self.pte(k0, m)) && page_of(self.pte(k0, m)) != old_p && page_of(
            self.pte(k0, m),
        ) != p && k4.frames.contains_key(page_of(self.pte(k0, m))) && k4.frames[page_of(
            self.pte(k0, m),
        )] == k0.frames[page_of(self.pte(k0, m))] by {
            assert(self.page_ok(k0, m));
            assert(self.maps(k0, n));
            let q = page_of(self.pte(k0, m));
            assert(self.owns(k0, q));
            assert(k2.frames.contains_key(q));
        }
        assert forall|m: int| #[trigger] self.maps(k4, m) implies self.page_ok(k4, m) by {
            assert(self.maps(k0, m));
            assert(self.page_ok(k0, m));
        }
        assert forall|a: int, b: int|
            #![trigger self.maps(k4, a), self.maps(k4, b)]
            self.maps(k4, a) && self.maps(k4, b) && a != b implies page_of(self.pte(k4, a)) != page_of(
            self.pte(k4, b),
        ) by {
            assert(self.maps(k0, a) && self.maps(k0, b));
        }
        assert(self.mem(k4).pages =~= self.mem(k0).pages.insert(
            n,
            UserPage { flags: flags_of(pte), data: k0.page(old_p), refs: 1 },
        )) by {
            assert forall|m: int| 0 <= m < MAXPAGES && m != n && flag(self.pte(k0, m), PTE_V) implies #[trigger] self.page(
                k4,
                m,
            ) == self.page(k0, m) by {
                if m < UPAGES {
                    assert(self.maps(k0, m));
                }
            }
        }
        assert(self.apart(k0, self, k4)) by {
            assert forall|q: u64| #[trigger] self.owns(k4, q) implies (self.owns(k0, q) && q != old_p)
                || q == p by {
                if self.0.is_node(q) {
                } else {
                    let m = choose|m: int| #[trigger]
                        self.maps(k4, m) && page_of(self.pte(k4, m)) == q;
                    assert(self.maps(k0, m));
                }
            }
            assert forall|q: u64| #[trigger] self.writes(k4, q) implies self.writes(k0, q) || self.alone(
                k0,
                q,
            ) by {
                let m = choose|m: int| #[trigger]
                    self.maps(k4, m) && page_of(self.pte(k4, m)) == q && flag(
                        self.pte(k4, m),
                        PTE_W,
                    );
                assert(self.maps(k0, m));
            }
            assert forall|q: u64| #[trigger] k0.frames.contains_key(q) implies self.frame_apart(
                k0,
                self,
                k4,
                q,
            ) by {
                assert(q != p);
                assert(k2.frames.contains_key(q) && k2.frames[q] == k0.frames[q]);
                assert(k3.frames.contains_key(q));
                if self.0.is_node(q) {
                    assert(k0.frames[q].refs == 1);
                } else if self.owns(k0, q) && q != old_p {
                    let m = choose|m: int| #[trigger] self.maps(k0, m) && page_of(self.pte(k0, m)) == q;
                    assert(self.maps(k0, m));
                    assert(self.maps(k4, m));
                }
            }
            assert forall|q: u64| #[trigger] k4.free.contains(q) implies self.alone(k0, q) by {}
            assert forall|q: u64| #[trigger] k0.free.contains(q) implies k4.free.contains(q)
                || self.owns(k4, q) by {
                if q == p {
                    assert(self.maps(k4, n));
                }
            }
        }
    }

    /// Marks a PTE invalid for user access.
    ///
    /// Used by `exec()` for the user stack guard page.
    pub fn clear(&mut self, kmem: &mut Kmem, va: VA) -> (r: Result<(), VmError>)
        requires
            old(kmem).wf(),
            old(self).wf(old(kmem)@),
        ensures
            final(kmem).wf(),
            *final(self) == *old(self),
            final(self).wf(final(kmem)@),
            Some((final(self).mem(final(kmem)@), r)) == Some(
                old(self).mem(old(kmem)@).clear(va.0 as int),
            ),
            old(self).apart(old(kmem)@, *final(self), final(kmem)@),
            forall|m: int|
                0 <= m && m != va.0 as int / (PGSIZE as int) ==> #[trigger] final(self).pte(
                    final(kmem)@,
                    m,
                ) == old(self).pte(old(kmem)@, m),
            ({
                let n = va.0 as int / (PGSIZE as int);
                let entry = old(self).pte(old(kmem)@, n);
                final(self).pte(final(kmem)@, n) == if r is Ok {
                    entry & !PTE_U
                } else {
                    entry
                }
            }),
    {
        let ghost k0 = kmem@;
        let ghost n = va.0 as int / (PGSIZE as int);
        proof {
            kmem.lemma_wf();
            self.lemma_refl(k0);
            if n < MAXPAGES {
                lemma_mem(*self, k0, n);
            }
            lemma_entry_page(self.0, k0, va.0 as int);
            crate::vm::lemma_zero_invalid();
        }
        let pte = match self.0.walk(kmem, va) {
            Ok(pte) => pte,
            Err(e) => {
                return Err(e);
            },
        };
        let new = pte.0 & !PTE_U;
        proof {
            let x = pte.0;
            assert((x & !16u64) & 1 == x & 1 && (x & !16u64) & 4 == x & 4 && (x & !16u64) & (8u64
                | 4u64 | 2u64) == x & (8u64 | 4u64 | 2u64) && ((x & !16u64) >> 10) << 12 == (x >> 10)
                << 12 && (x & !16u64) & 0x3FF == (x & 0x3FF) & !16u64 && (x & !16u64) <= x)
                by (bit_vector);
            if n < UPAGES && flag(self.pte(k0, n), PTE_V) {
                assert(self.maps(k0, n));
                assert(self.page_ok(k0, n));
            }
        }
        self.0.set(kmem, va, PageTableEntry(new));
        proof {
            lemma_only(*self, k0, kmem@, va.0, new);
            if flag(self.pte(k0, n), PTE_V) {
                self.lemma_retag(k0, kmem@, n, new);
            } else {
                self.lemma_forget(k0, kmem@, n, new);
                assert(self.mem(k0).pages.remove(n) =~= self.mem(k0).pages);
            }
        }
        Ok(())
    }

    /// Allocates and maps user memory if process is referencing a page that was lazily allocated
    /// in `sys_sbrk()` or a copy-on-write page. `size` is the size of the process.
    ///
    /// Returns the physical address, if successful.
    /// Returns err if `va` is out-of-bounds or write attempt on read-only page.
    ///
    /// # Cases
    /// 1. va is greater than size: out-of-bounds access, page fault
    /// 2. pte is valid and cow is unset: write on read-only page, page fault
    /// 3. pte is valid and cow is set: valid copy-on-write page, copy page as writable
    /// 4. pte is invalid: lazily allocated page, allocate & map new page
    pub fn vmfault(&mut self, kmem: &mut Kmem, size: u64, va: VA) -> (r: Result<PA, VmError>)
        requires
            old(kmem).wf(),
            old(self).wf(old(kmem)@),
            size <= u64::MAX - 2 * PGSIZE,
            old(self).mem(old(kmem)@).fault(size as int, va.0 as int) is Some,
        ensures
            final(kmem).wf(),
            final(self).wf(final(kmem)@),
            ({
                let (m, result) = old(self).mem(old(kmem)@).fault(size as int, va.0 as int)->0;
                &&& final(self).mem(final(kmem)@) == m
                &&& r is Ok <==> result is Ok
                &&& r matches Err(e) ==> result == Err::<(), VmError>(e)
                &&& r matches Ok(pa) ==> pa.0 == page_of(
                    final(self).pte(final(kmem)@, va.0 as int / (PGSIZE as int)),
                )
            }),
            r matches Ok(pa) ==> old(kmem)@.free.contains(pa.0) && ({
                let n = va.0 as int / (PGSIZE as int);
                let entry = old(self).pte(old(kmem)@, n);
                final(self).pte(final(kmem)@, n) == if old(self).mem(
                    old(kmem)@,
                ).pages.contains_key(n) {
                    entry_of(pa.0) | ((flags_of(entry) & !PTE_COW) | PTE_W)
                } else {
                    entry_of(pa.0) | (PTE_W | PTE_U | PTE_R) | PTE_V
                }
            }),
            old(self).apart(old(kmem)@, *final(self), final(kmem)@),
            forall|m: int|
                0 <= m && (m != va.0 as int / (PGSIZE as int) || r is Err) ==> #[trigger] final(self).pte(
                    final(kmem)@,
                    m,
                ) == old(self).pte(old(kmem)@, m),
    {
        let ghost k0 = kmem@;
        proof {
            kmem.lemma_wf();
            self.lemma_refl(k0);
            crate::vm::lemma_zero_invalid();
        }
        // Never lazily map page 0: a null-pointer dereference must fault.
        if va.0 < PGSIZE {
            return Err(VmError::InvalidAddress);
        }
        if va.0 >= size {
            // case 1: out-of-bounds access
            return Err(VmError::InvalidAddress);
        }
        let ghost n = va.0 as int / (PGSIZE as int);
        let va = va.round_down();
        proof {
            assert(n * PGSIZE == va.0 && va.0 as int / (PGSIZE as int) == n);
            if n < MAXPAGES {
                lemma_mem(*self, k0, n);
            } else {
                lemma_beyond(self.0, k0, va.0 as int);
            }
        }
        if let Ok(pte) = self.0.walk(kmem, va) {
            if pte.is_v() {
                proof {
                    lemma_flags(pte.0);
                }
                if !pte.is_cow() {
                    // case 2: mapped but not writable
                    return Err(VmError::InvalidAddress);
                }
                // case 3: COW page, copy and remap as writable
                assert(self.maps(k0, n));
                assert(self.page_ok(k0, n));
                let old_pa = pte.as_pa();
                let new_pa = match kmem.allocate_page() {
                    Some(p) => PA(p),
                    None => {
                        return Err(VmError::Alloc);
                    },
                };
                let mut bytes: Vec<u8> = Vec::new();
                let ghost k1 = kmem@;
                kmem.read_page(old_pa.0, 0, PGSIZE as usize, &mut bytes);
                proof {
                    assert(k1.page(old_pa.0) == k0.page(old_pa.0));
                    assert(k0.page(old_pa.0).len() == PGSIZE);
                    assert(bytes@ =~= k0.page(old_pa.0));
                }
                kmem.write_page(new_pa.0, 0, &bytes, 0, PGSIZE as usize);
                let ghost k2 = kmem@;
                proof {
                    assert(splice(zero_page(), 0, bytes@.subrange(0, PGSIZE as int)) =~= bytes@);
                    assert(k2 =~= k0.allocated(new_pa.0, Content::Page(bytes@)));
                    self.lemma_owns(k0);
                    lemma_pt_frame(self.0, k0, k2);
                    lemma_copied_pte(pte.0, new_pa.0);
                }
                // install new page with write enabled and COW disabled
                let flags = (pte.flags() & !PTE_COW) | PTE_W;
                let new = PageTableEntry(new_pa.as_pte().0 | flags);
                self.0.set(kmem, va, new);
                let ghost k3 = kmem@;
                proof {
                    lemma_only(*self, k2, k3, va.0, new.0);
                    assert(k2.frames.contains_key(old_pa.0));
                }
                // drop our reference to the original page
                kmem.release(old_pa.0);
                proof {
                    self.lemma_moved(k0, k2, k3, kmem@, n, new_pa.0, new.0);
                    assert(self.mem(kmem@) =~= (self.mem(k0).fault(size as int, va.0 as int)->0).0);
                }
                return Ok(new_pa);
            }
        }
        // case 4: pte absent, lazily allocate a new page
        proof {
            assert((4u64 | 16u64 | 2u64) < 0x400 && (4u64 | 16u64 | 2u64) & (8u64 | 4u64 | 2u64) != 0)
                by (bit_vector);
        }
        self.add_page(kmem, va, PTE_W | PTE_U | PTE_R)
    }
}

impl UserMem {
    /// Making the page at `va` unusable for user code, if it is there.
    pub open spec fn clear(self, va: int) -> (UserMem, Result<(), VmError>) {
        let n = va / (PGSIZE as int);
        if va >= MAXVA {
            (self, Err(VmError::InvalidAddress))
        } else if !self.shape.tabs.contains(tab_of(va)) {
            (self, Err(VmError::InvalidPage))
        } else if self.pages.contains_key(n) {
            (
                UserMem {
                    pages: self.pages.insert(
                        n,
                        UserPage { flags: self.pages[n].flags & !PTE_U, ..self.pages[n] },
                    ),
                    ..self
                },
                Ok(()),
            )
        } else {
            (self, Ok(()))
        }
    }
}

impl Uvm {
    /// Writing to page `n`, which is writable or the process's alone, changes its bytes alone.
    pub(crate) proof fn lemma_poke(self, k0: KmemState, k1: KmemState, n: int, data: Seq<u8>)
        requires
            self.wf(k0),
            kmem_ok(k0),
            self.maps(k0, n),
            flag(self.pte(k0, n), PTE_W) || k0.frames[page_of(self.pte(k0, n))].refs == 1,
            k1 == k0.with(page_of(self.pte(k0, n)), Content::Page(data)),
        ensures
            self.wf(k1),
            self.apart(k0, self, k1),
            self.mem(k1) == (UserMem {
                pages: self.mem(k0).pages.insert(n, UserPage { data, ..self.page(k0, n) }),
                ..self.mem(k0)
            }),
            forall|m: int| #[trigger] self.pte(k1, m) == self.pte(k0, m),
    {
        let p = page_of(self.pte(k0, n));
        self.lemma_owns(k0);
        assert(self.page_ok(k0, n));
        lemma_pt_frame(self.0, k0, k1);
        assert forall|m: int| #[trigger] self.pte(k1, m) == self.pte(k0, m) by {}
        assert forall|m: int| #[trigger] self.maps(k1, m) == self.maps(k0, m) by {}
        assert forall|m: int| #[trigger] self.maps(k1, m) implies self.page_ok(k1, m) by {
            assert(self.maps(k0, m));
            assert(self.page_ok(k0, m));
        }
        assert forall|a: int, b: int|
            #![trigger self.maps(k1, a), self.maps(k1, b)]
            self.maps(k1, a) && self.maps(k1, b) && a != b implies page_of(self.pte(k1, a)) != page_of(
            self.pte(k1, b),
        ) by {
            assert(self.maps(k0, a) && self.maps(k0, b));
        }
        assert(self.mem(k1).pages =~= self.mem(k0).pages.insert(
            n,
            UserPage { data, ..self.page(k0, n) },
        )) by {
            assert forall|m: int| 0 <= m < MAXPAGES && m != n && flag(self.pte(k0, m), PTE_V) implies #[trigger] self.page(
                k1,
                m,
            ) == self.page(k0, m) by {
                if m < UPAGES {
                    assert(self.maps(k0, m) && self.maps(k0, n));
                }
            }
        }
        assert forall|q: u64| #[trigger] self.owns(k1, q) == self.owns(k0, q) by {
            if self.owns(k1, q) && !self.0.is_node(q) {
                let m = choose|m: int| #[trigger] self.maps(k1, m) && page_of(self.pte(k1, m)) == q;
                assert(self.maps(k0, m));
            }
            if self.owns(k0, q) && !self.0.is_node(q) {
                let m = choose|m: int| #[trigger] self.maps(k0, m) && page_of(self.pte(k0, m)) == q;
                assert(self.maps(k1, m));
            }
        }
        assert forall|q: u64| #[trigger] self.writes(k1, q) implies self.writes(k0, q) by {
            let m = choose|m: int| #[trigger]
                self.maps(k1, m) && page_of(self.pte(k1, m)) == q && flag(self.pte(k1, m), PTE_W);
            assert(self.maps(k0, m));
        }
        assert(self.writes(k0, p) || k0.frames[p].refs == 1) by {
            assert(self.maps(k0, n));
        }
        assert forall|q: u64| #[trigger] k0.frames.contains_key(q) implies self.frame_apart(
            k0,
            self,
            k1,
            q,
        ) by {
            assert(self.owns(k0, p));
        }
    }

    /// Makes the page at `va0` usable for copying, and returns its frame.
    fn touch(&mut self, kmem: &mut Kmem, size: u64, va0: VA) -> (r: Result<PA, VmError>)
        requires
            old(kmem).wf(),
            old(self).wf(old(kmem)@),
            size <= u64::MAX - 2 * PGSIZE,
            va0.0 % PGSIZE == 0,
            old(self).mem(old(kmem)@).touch(size as int, va0.0 as int) is Some,
        ensures
            final(kmem).wf(),
            final(self).wf(final(kmem)@),
            ({
                let n = va0.0 as int / (PGSIZE as int);
                let (m, result) = old(self).mem(old(kmem)@).touch(size as int, va0.0 as int)->0;
                &&& final(self).mem(final(kmem)@) == m
                &&& r is Ok <==> result is Ok
                &&& r matches Err(e) ==> result == Err::<(), VmError>(e)
                &&& r matches Ok(pa) ==> va0.0 < MAXVA && m.pages.contains_key(n) && pa.0 == page_of(
                    final(self).pte(final(kmem)@, n),
                )
            }),
            old(self).apart(old(kmem)@, *final(self), final(kmem)@),
            forall|m: int|
                0 <= m && (m != va0.0 as int / (PGSIZE as int) || r is Err) ==> #[trigger] final(self).pte(
                    final(kmem)@,
                    m,
                ) == old(self).pte(old(kmem)@, m),
    {
        let ghost k0 = kmem@;
        let ghost n = va0.0 as int / (PGSIZE as int);
        proof {
            kmem.lemma_wf();
            self.lemma_refl(k0);
            assert(n * PGSIZE == va0.0);
            if n < MAXPAGES {
                lemma_mem(*self, k0, n);
            }
            lemma_flags(self.pte(k0, n));
            crate::vm::lemma_zero_invalid();
        }
        match self.0.walk_addr(kmem, va0) {
            Ok(pa0) => Ok(pa0),
            Err(_) => self.vmfault(kmem, size, va0),
        }
    }

    /// Makes the page at `va0` writable, and returns its frame: one that is to be copied on the
    /// first write gets a frame of its own.
    fn reach(&mut self, kmem: &mut Kmem, size: u64, va0: VA) -> (r: Result<PA, VmError>)
        requires
            old(kmem).wf(),
            old(self).wf(old(kmem)@),
            size <= u64::MAX - 2 * PGSIZE,
            va0.0 % PGSIZE == 0,
            old(self).mem(old(kmem)@).reach(size as int, va0.0 as int) is Some,
        ensures
            final(kmem).wf(),
            final(self).wf(final(kmem)@),
            ({
                let n = va0.0 as int / (PGSIZE as int);
                let (m, result) = old(self).mem(old(kmem)@).reach(size as int, va0.0 as int)->0;
                &&& final(self).mem(final(kmem)@) == m
                &&& r is Ok <==> result is Ok
                &&& r matches Err(e) ==> result == Err::<(), VmError>(e)
                &&& r matches Ok(pa) ==> va0.0 < MAXVA && m.pages.contains_key(n) && pa.0 == page_of(
                    final(self).pte(final(kmem)@, n),
                )
            }),
            old(self).apart(old(kmem)@, *final(self), final(kmem)@),
            forall|m: int|
                0 <= m && (m != va0.0 as int / (PGSIZE as int) || r is Err) ==> #[trigger] final(self).pte(
                    final(kmem)@,
                    m,
                ) == old(self).pte(old(kmem)@, m),
    {
        let ghost k0 = kmem@;
        let ghost n = va0.0 as int / (PGSIZE as int);
        proof {
            kmem.lemma_wf();
            self.lemma_refl(k0);
            assert(n * PGSIZE == va0.0);
            if n < MAXPAGES {
                lemma_mem(*self, k0, n);
            }
            lemma_flags(self.pte(k0, n));
            crate::vm::lemma_zero_invalid();
        }
        let pa0 = match self.0.walk_addr(kmem, va0) {
            Ok(pa0) => pa0,
            Err(_) => {
                return self.vmfault(kmem, size, va0);
            },
        };
        if let Ok(pte) = self.0.walk(kmem, va0) {
            if pte.is_cow() && !pte.is_w() {
                return self.vmfault(kmem, size, va0);
            }
        }
        Ok(pa0)
    }

    /// Writes `count` bytes of `src` from `done` on to the page at `va0`, whose frame is `pa0`, from
    /// the byte `at` on. The page must be there; an error says that it is not writable.
    fn put(
        &mut self,
        kmem: &mut Kmem,
        va0: VA,
        pa0: PA,
        at: usize,
        src: &[u8],
        done: usize,
        count: usize,
    ) -> (r: Result<(), VmError>)
        requires
            old(kmem).wf(),
            old(self).wf(old(kmem)@),
            va0.0 % PGSIZE == 0,
            va0.0 < MAXVA,
            (va0.0 as int / (PGSIZE as int)) < UPAGES,
            old(self).mem(old(kmem)@).pages.contains_key(va0.0 as int / (PGSIZE as int)),
            pa0.0 == page_of(old(self).pte(old(kmem)@, va0.0 as int / (PGSIZE as int))),
            at + count <= PGSIZE,
            done + count <= src@.len(),
        ensures
            final(kmem).wf(),
            final(self).wf(final(kmem)@),
            ({
                let n = va0.0 as int / (PGSIZE as int);
                let m = old(self).mem(old(kmem)@);
                let page = m.pages[n];
                if flag(page.flags, PTE_W) {
                    &&& r is Ok
                    &&& final(self).mem(final(kmem)@) == (UserMem {
                        pages: m.pages.insert(
                            n,
                            UserPage {
                                data: splice(
                                    page.data,
                                    at as int,
                                    src@.subrange(done as int, done + count),
                                ),
                                ..page
                            },
                        ),
                        ..m
                    })
                } else {
                    &&& r == Err::<(), VmError>(VmError::InvalidPte)
                    &&& final(self).mem(final(kmem)@) == m
                }
            }),
            old(self).apart(old(kmem)@, *final(self), final(kmem)@),
            forall|m: int| #[trigger]
                final(self).pte(final(kmem)@, m) == old(self).pte(old(kmem)@, m),
    {
        let ghost k2 = kmem@;
        let ghost n = va0.0 as int / (PGSIZE as int);
        proof {
            kmem.lemma_wf();
            self.lemma_refl(k2);
            lemma_mem(*self, k2, n);
            lemma_flags(self.pte(k2, n));
            self.lemma_owns(k2);
            assert(n * PGSIZE == va0.0);
            crate::vm::lemma_zero_invalid();
        }
        let pte = match self.0.walk(kmem, va0) {
            Ok(pte) => pte,
            Err(e) => {
                return Err(e);
            },
        };
        // forbid copying over read-only user text pages
        if !pte.is_w() {
            return Err(VmError::InvalidPte);
        }
        assert(self.maps(k2, n));
        assert(self.page_ok(k2, n));
        kmem.write_page(pa0.0, at, src, done, count);
        proof {
            let data = splice(
                k2.page(pa0.0),
                at as int,
                src@.subrange(done as int, done + count),
            );
            self.lemma_poke(k2, kmem@, n, data);
        }
        Ok(())
    }

    /// Copies the bytes of `src` from `done` on to `dstva`, as far as the page at `dstva` reaches.
    /// Returns how many.
    fn copy_part(&mut self, kmem: &mut Kmem, size: u64, src: &[u8], done: usize, dstva: u64) -> (r:
        Result<usize, VmError>)
        requires
            old(kmem).wf(),
            old(self).wf(old(kmem)@),
            size <= u64::MAX - 2 * PGSIZE,
            done < src@.len(),
            old(self).mem(old(kmem)@).copy_to(
                size as int,
                dstva as int,
                src@.skip(done as int),
            ) is Some,
        ensures
            final(kmem).wf(),
            final(self).wf(final(kmem)@),
            ({
                let rest = src@.skip(done as int);
                let want = old(self).mem(old(kmem)@).copy_to(size as int, dstva as int, rest);
                let new = final(self).mem(final(kmem)@);
                match r {
                    Ok(count) => {
                        &&& 0 < count <= rest.len()
                        &&& round_down(dstva as int) + PGSIZE <= u64::MAX
                        &&& want == new.copy_to(
                            size as int,
                            round_down(dstva as int) + PGSIZE,
                            src@.skip(done + count),
                        )
                    },
                    Err(e) => want == Some((new, Err::<(), VmError>(e))),
                }
            }),
            old(self).apart(old(kmem)@, *final(self), final(kmem)@),
            forall|m: int|
                UPAGES <= m ==> #[trigger] final(self).pte(final(kmem)@, m) == old(self).pte(
                    old(kmem)@,
                    m,
                ),
    {
        let ghost k1 = kmem@;
        let ghost s1 = *self;
        let va0 = pg_round_down(dstva);
        let ghost n = va0 as int / (PGSIZE as int);
        proof {
            kmem.lemma_wf();
            self.lemma_refl(k1);
            self.lemma_owns(k1);
            assert(va0 % PGSIZE == 0 && n * PGSIZE == va0);
        }
        if va0 > MAXVA {
            return Err(VmError::InvalidAddress);
        }
        let pa0 = match self.reach(kmem, size, VA(va0)) {
            Ok(pa0) => pa0,
            Err(e) => {
                return Err(e);
            },
        };
        let ghost k2 = kmem@;
        let ghost s2 = *self;
        proof {
            kmem.lemma_wf();
            s2.lemma_owns(k2);
        }
        let room = PGSIZE - (dstva - va0);
        let left = src.len() - done;
        let count: usize = if left < room as usize {
            left
        } else {
            room as usize
        };
        assert(count == UserMem::part(dstva as int, left as int));
        let at = (dstva - va0) as usize;
        let put = self.put(kmem, VA(va0), pa0, at, src, done, count);
        proof {
            let rest = src@.skip(done as int);
            assert(src@.subrange(done as int, done + count) =~= rest.take(count as int));
            assert(rest.skip(count as int) =~= src@.skip(done + count));
            lemma_apart_trans(s1, k1, s2, k2, *self, kmem@);
        }
        if let Err(e) = put {
            return Err(e);
        }
        Ok(count)
    }

    /// Copies bytes from `src` to `dst` virtual address in the current pagetable. `size` is the
    /// size of the process.
    pub fn copy_to(&mut self, kmem: &mut Kmem, size: u64, src: &[u8], dst: VA) -> (r: Result<
        (),
        VmError,
    >)
        requires
            old(kmem).wf(),
            old(self).wf(old(kmem)@),
            size <= u64::MAX - 2 * PGSIZE,
            old(self).mem(old(kmem)@).copy_to(size as int, dst.0 as int, src@) is Some,
        ensures
            final(kmem).wf(),
            final(self).wf(final(kmem)@),
            Some((final(self).mem(final(kmem)@), r)) == old(self).mem(old(kmem)@).copy_to(
                size as int,
                dst.0 as int,
                src@,
            ),
            old(self).apart(old(kmem)@, *final(self), final(kmem)@),
            forall|m: int|
                UPAGES <= m ==> #[trigger] final(self).pte(final(kmem)@, m) == old(self).pte(
                    old(kmem)@,
                    m,
                ),
    {
        let ghost k0 = kmem@;
        let ghost s0 = *self;
        let ghost want = self.mem(k0).copy_to(size as int, dst.0 as int, src@);
        let mut done: usize = 0;
        let mut dstva: u64 = dst.0;
        proof {
            kmem.lemma_wf();
            self.lemma_refl(k0);
            self.lemma_owns(k0);
            assert(src@.skip(0) =~= src@);
        }
        while done < src.len()
            invariant
                done <= src@.len(),
                s0 == *old(self),
                k0 == old(kmem)@,
                kmem_ok(k0),
                forall|p: u64| #[trigger] s0.owns(k0, p) ==> k0.frames.contains_key(p),
                kmem.wf(),
                self.wf(kmem@),
                size <= u64::MAX - 2 * PGSIZE,
                s0.apart(k0, *self, kmem@),
                want is Some,
                want == s0.mem(k0).copy_to(size as int, dst.0 as int, src@),
                want == self.mem(kmem@).copy_to(
                    size as int,
                    dstva as int,
                    src@.skip(done as int),
                ),
                forall|m: int| UPAGES <= m ==> #[trigger] self.pte(kmem@, m) == s0.pte(k0, m),
            decreases src@.len() - done,
        {
            let ghost k1 = kmem@;
            let ghost s1 = *self;
            proof {
                kmem.lemma_wf();
                self.lemma_owns(k1);
            }
            let part = self.copy_part(kmem, size, src, done, dstva);
            proof {
                kmem.lemma_wf();
                lemma_apart_trans(s0, k0, s1, k1, *self, kmem@);
                assert forall|m: int| UPAGES <= m implies #[trigger] self.pte(kmem@, m) == s0.pte(
                    k0,
                    m,
                ) by {
                    assert(s1.pte(k1, m) == s0.pte(k0, m));
                }
            }
            match part {
                Ok(count) => {
                    done = done + count;
                    dstva = pg_round_down(dstva) + PGSIZE;
                },
                Err(e) => {
                    return Err(e);
                },
            }
        }
        assert(src@.skip(done as int).len() == 0);
        Ok(())
    }

    /// Copy bytes from `src` virtual address in the current pagetable to the end of `dst`, `len`
    /// of them. `size` is the size of the process.
    pub fn copy_from(&mut self, kmem: &mut Kmem, size: u64, src: VA, dst: &mut Vec<u8>, len: usize) -> (r: Result<
        (),
        VmError,
    >)
        requires
            old(kmem).wf(),
            old(self).wf(old(kmem)@),
            size <= u64::MAX - 2 * PGSIZE,
            old(self).mem(old(kmem)@).copy_from(
                size as int,
                src.0 as int,
                len as int,
                old(dst)@,
            ) is Some,
        ensures
            final(kmem).wf(),
            final(self).wf(final(kmem)@),
            ({
                let (m, bytes) = old(self).mem(old(kmem)@).copy_from(
                    size as int,
                    src.0 as int,
                    len as int,
                    old(dst)@,
                )->0;
                &&& final(self).mem(final(kmem)@) == m
                &&& match bytes {
                    Ok(bytes) => r is Ok && final(dst)@ == bytes,
                    Err(e) => r == Err::<(), VmError>(e),
                }
            }),
            old(self).apart(old(kmem)@, *final(self), final(kmem)@),
            forall|m: int|
                UPAGES <= m ==> #[trigger] final(self).pte(final(kmem)@, m) == old(self).pte(
                    old(kmem)@,
                    m,
                ),
    {
        let ghost k0 = kmem@;
        let ghost s0 = *self;
        let ghost want = self.mem(k0).copy_from(size as int, src.0 as int, len as int, dst@);
        let mut done: usize = 0;
        let mut srcva: u64 = src.0;
        proof {
            kmem.lemma_wf();
            self.lemma_refl(k0);
            self.lemma_owns(k0);
        }
        while done < len
            invariant
                done <= len,
                s0 == *old(self),
                k0 == old(kmem)@,
                kmem_ok(k0),
                forall|p: u64| #[trigger] s0.owns(k0, p) ==> k0.frames.contains_key(p),
                kmem.wf(),
                self.wf(kmem@),
                size <= u64::MAX - 2 * PGSIZE,
                s0.apart(k0, *self, kmem@),
                want is Some,
                want == s0.mem(k0).copy_from(size as int, src.0 as int, len as int, old(dst)@),
                want == self.mem(kmem@).copy_from(
                    size as int,
                    srcva as int,
                    len - done,
                    dst@,
                ),
                forall|m: int| UPAGES <= m ==> #[trigger] self.pte(kmem@, m) == s0.pte(k0, m),
            decreases len - done,
        {
            let va0 = pg_round_down(srcva);
            let ghost n = va0 as int / (PGSIZE as int);
            let ghost k1 = kmem@;
            let ghost s1 = *self;
            proof {
                kmem.lemma_wf();
                self.lemma_owns(k1);
                assert(va0 % PGSIZE == 0 && n * PGSIZE == va0);
            }
            let pa0 = match self.touch(kmem, size, VA(va0)) {
                Ok(pa0) => pa0,
                Err(e) => {
                    proof {
                        lemma_apart_trans(s0, k0, s1, k1, *self, kmem@);
                        assert forall|m: int| UPAGES <= m implies #[trigger] self.pte(kmem@, m)
                            == s0.pte(k0, m) by {
                            assert(s1.pte(k1, m) == s0.pte(k0, m));
                        }
                    }
                    return Err(e);
                },
            };
            let ghost k2 = kmem@;
            proof {
                lemma_apart_trans(s0, k0, s1, k1, *self, k2);
                lemma_mem(*self, k2, n);
                assert(self.maps(k2, n));
                assert(self.page_ok(k2, n));
            }
            let room = PGSIZE - (srcva - va0);
            let left = len - done;
            let count: usize = if left < room as usize {
                left
            } else {
                room as usize
            };
            assert(count == UserMem::part(srcva as int, left as int));
            kmem.read_page(pa0.0, (srcva - va0) as usize, count, dst);
            done = done + count;
            srcva = va0 + PGSIZE;
        }
        Ok(())
    }
}

} // verus!
