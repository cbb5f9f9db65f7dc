//! User page tables.
use vstd::prelude::*;
use crate::kalloc::{page_ok, zero_page, Content, Kmem, KmemState, NPTE};
use crate::riscv::{
    entry_of,
    flags_of,
    index_of,
    law_pte_roundtrip,
    page_of,
    pg_round_up,
    plain,
    round_up,
    MAXVA,
    PGSIZE,
    PTE_COW,
    PTE_R,
    PTE_U,
    PTE_V,
    PTE_W,
};
use crate::vm::pagetable::{tab_of, PageTable, Shape};
use crate::vm::usermem::{UserMem, UserPage, MAXPAGES, UPAGES};
use crate::vm::{flag, leaf, PageTableEntry, VmError, PA, VA};

verus! {

/// User Page Table
pub struct Uvm(pub PageTable);

impl Uvm {
    /// The entry of page `n`.
    pub open spec fn pte(self, k: KmemState, n: int) -> u64 {
        self.0.entry(k, n * PGSIZE)
    }

    /// Page `n` is for the process and there.
    pub open spec fn maps(self, k: KmemState, n: int) -> bool {
        0 <= n < UPAGES && flag(self.pte(k, n), PTE_V)
    }

    /// The entry of page `n` is for a page in use, and holds no more than its address and flags.
    pub open spec fn page_ok(self, k: KmemState, n: int) -> bool {
        &&& leaf(self.pte(k, n))
        &&& plain(self.pte(k, n))
        &&& k.is_page(page_of(self.pte(k, n)))
    }

    /// The page table is a tree, and its user pages are frames in use, none of them mapped twice.
    pub open spec fn wf(self, k: KmemState) -> bool {
        &&& self.0.wf(k)
        &&& forall|n: int| #[trigger] self.maps(k, n) ==> self.page_ok(k, n)
        &&& forall|n: int, m: int|
            #![trigger self.maps(k, n), self.maps(k, m)]
            self.maps(k, n) && self.maps(k, m) && n != m ==> page_of(self.pte(k, n)) != page_of(
                self.pte(k, m),
            )
    }

    /// `p` is one of the frames of the page table or of its user pages.
    pub open spec fn owns(self, k: KmemState, p: u64) -> bool {
        ||| self.0.is_node(p)
        ||| exists|n: int| #[trigger] self.maps(k, n) && page_of(self.pte(k, n)) == p
    }

    /// Page `n` of the process. Of those that are not for it to use only the flags are seen.
    pub open spec fn page(self, k: KmemState, n: int) -> UserPage {
        if n < UPAGES {
            UserPage {
                flags: flags_of(self.pte(k, n)),
                data: k.page(page_of(self.pte(k, n))),
                refs: k.frames[page_of(self.pte(k, n))].refs,
            }
        } else {
            UserPage { flags: flags_of(self.pte(k, n)), data: seq![], refs: 1 }
        }
    }

    /// The memory of the process.
    pub open spec fn mem(self, k: KmemState) -> UserMem {
        UserMem {
            pages: Map::new(
                |n: int| 0 <= n < MAXPAGES && flag(self.pte(k, n), PTE_V),
                |n: int| self.page(k, n),
            ),
            shape: self.0.shape(),
            left: k.free.len(),
        }
    }

    /// `p` is the frame of a writable user page.
    pub open spec fn writes(self, k: KmemState, p: u64) -> bool {
        exists|n: int| #[trigger]
            self.maps(k, n) && page_of(self.pte(k, n)) == p && flag(self.pte(k, n), PTE_W)
    }

    /// How the frame `p`, in use in `k0`, fares when `self` in `k0` becomes `new` in `k1`.
    pub open spec fn frame_apart(self, k0: KmemState, new: Uvm, k1: KmemState, p: u64) -> bool {
        // the frames of others are as they were
        &&& !self.owns(k0, p) ==> k1.frames.contains_key(p) && k1.frames[p] == k0.frames[p]
        // a frame that was dropped has one reference less
        &&& self.owns(k0, p) && k0.frames[p].refs > 1 && !new.owns(k1, p)
            ==> k1.frames.contains_key(p) && k1.frames[p].refs == k0.frames[p].refs - 1
        // and is free if that was the last one
        &&& self.owns(k0, p) && k0.frames[p].refs == 1 && !new.owns(k1, p) ==> k1.free.contains(p)
        // one that was kept has as many as before
        &&& self.owns(k0, p) && new.owns(k1, p) ==> k1.frames.contains_key(p) && k1.frames[p].refs
            == k0.frames[p].refs
        // a shared frame keeps its contents, unless the process could write it
        &&& k0.frames[p].refs > 1 && !self.writes(k0, p) ==> k1.frames.contains_key(p)
            && k1.frames[p].content == k0.frames[p].content
    }

    /// From `self` in `k0` to `new` in `k1` the memory of others is not touched: what the process
    /// got was free, what became free it had owned, and shared frames are only counted.
    pub open spec fn apart(self, k0: KmemState, new: Uvm, k1: KmemState) -> bool {
        &&& forall|p: u64| #[trigger]
            k0.frames.contains_key(p) ==> self.frame_apart(k0, new, k1, p)
        &&& forall|p: u64| #[trigger]
            new.owns(k1, p) ==> self.owns(k0, p) || (k0.free.contains(p) && k1.frames.contains_key(p)
                && k1.frames[p].refs == 1)
        &&& forall|p: u64| #[trigger]
            new.writes(k1, p) ==> self.writes(k0, p) || self.alone(k0, p)
        &&& forall|p: u64| #[trigger] k1.free.contains(p) ==> self.alone(k0, p)
        &&& forall|p: u64| #[trigger]
            k0.free.contains(p) ==> k1.free.contains(p) || new.owns(k1, p)
    }

    /// From `k0` to `k1` nothing changed but the tables of `self`.
    pub open spec fn tables_only(self, k0: KmemState, k1: KmemState) -> bool {
        &&& k1.free == k0.free
        &&& forall|p: u64| #[trigger]
            k0.frames.contains_key(p) && !self.0.is_node(p) ==> k1.frames.contains_key(p)
                && k1.frames[p] == k0.frames[p]
    }

    /// `p` is free, or in use for this process alone.
    pub open spec fn alone(self, k: KmemState, p: u64) -> bool {
        k.free.contains(p) || (self.owns(k, p) && k.frames[p].refs == 1)
    }
}

/// Frames in use are pages of physical memory, apart from the free ones, and hold what they
/// should.
pub open spec fn kmem_ok(k: KmemState) -> bool {
    &&& k.free.finite()
    &&& forall|p: u64| #[trigger] k.free.contains(p) ==> page_ok(p) && !k.frames.contains_key(p)
    &&& forall|p: u64| #[trigger]
        k.frames.contains_key(p) ==> {
            &&& page_ok(p)
            &&& k.frames[p].refs >= 1
            &&& match k.frames[p].content {
                Content::Table(t) => t.len() == NPTE,
                Content::Page(d) => d.len() == PGSIZE,
            }
        }
}

/// Entries of addresses in the same page are the same.
pub(crate) proof fn lemma_entry_page(pt: PageTable, k: KmemState, a: int)
    requires
        0 <= a,
    ensures
        pt.entry(k, a) == pt.entry(k, a / (PGSIZE as int) * PGSIZE),
{
    let b = a / (PGSIZE as int) * PGSIZE;
    assert(tab_of(a) == a / 4096 / 512 && index_of(0, a) == a / 4096 % 512);
    assert(tab_of(b) == b / 4096 / 512 && index_of(0, b) == b / 4096 % 512);
    assert(b / 4096 == a / 4096);
}

/// What the memory says of page `n`.
pub(crate) proof fn lemma_mem(u: Uvm, k: KmemState, n: int)
    requires
        0 <= n < MAXPAGES,
    ensures
        u.mem(k).pages.contains_key(n) == flag(u.pte(k, n), PTE_V),
        flag(u.pte(k, n), PTE_V) ==> u.mem(k).pages[n] == u.page(k, n),
{
}

/// The flag bits of an entry are those of its flags.
pub(crate) proof fn lemma_flags(pte: u64)
    ensures
        flag(flags_of(pte), PTE_V) == flag(pte, PTE_V),
        flag(flags_of(pte), PTE_U) == flag(pte, PTE_U),
        flag(flags_of(pte), PTE_W) == flag(pte, PTE_W),
        flag(flags_of(pte), PTE_COW) == flag(pte, PTE_COW),
        leaf(flags_of(pte)) == leaf(pte),
        flags_of(pte) < 0x400,
{
    assert((pte & 0x3FF) & 1 == pte & 1 && (pte & 0x3FF) & 16 == pte & 16 && (pte & 0x3FF) & 4 == pte
        & 4 && (pte & 0x3FF) & 256 == pte & 256 && (pte & 0x3FF) & (8u64 | 4u64 | 2u64) == pte & (
    8u64 | 4u64 | 2u64) && (pte & 0x3FF) < 0x400) by (bit_vector);
}

impl Uvm {
    /// Allocates an empty user page table.
    pub fn try_new(kmem: &mut Kmem) -> (r: Result<Self, VmError>)
        requires
            old(kmem).wf(),
        ensures
            final(kmem).wf(),
            r is Ok <==> old(kmem)@.free.len() > 0,
            r matches Err(e) ==> e == VmError::Alloc && final(kmem)@ == old(kmem)@,
            r matches Ok(u) ==> {
                &&& u.wf(final(kmem)@)
                &&& u.mem(final(kmem)@) == (UserMem {
                    pages: Map::empty(),
                    shape: Shape { mids: Set::empty(), tabs: Set::empty() },
                    left: (old(kmem)@.free.len() - 1) as nat,
                })
                &&& forall|p: u64| #[trigger]
                    u.owns(final(kmem)@, p) ==> old(kmem)@.free.contains(p)
                &&& forall|p: u64| #[trigger]
                    final(kmem)@.free.contains(p) ==> old(kmem)@.free.contains(p)
                &&& forall|p: u64| #[trigger]
                    old(kmem)@.free.contains(p) ==> final(kmem)@.free.contains(p) || u.owns(
                        final(kmem)@,
                        p,
                    )
                &&& forall|p: u64| #[trigger]
                    old(kmem)@.frames.contains_key(p) ==> final(kmem)@.frames.contains_key(p)
                        && final(kmem)@.frames[p] == old(kmem)@.frames[p]
            },
    {
        proof {
            kmem.lemma_wf();
        }
        match PageTable::try_new(kmem) {
            Ok(pt) => {
                let u = Uvm(pt);
                proof {
                    crate::vm::lemma_zero_invalid();
                    assert forall|n: int| u.pte(kmem@, n) == 0 by {}
                    assert(u.mem(kmem@).pages =~= Map::empty());
                    assert(u.0.shape() =~= (Shape { mids: Set::empty(), tabs: Set::empty() }));
                }
                Ok(u)
            },
            Err(e) => Err(e),
        }
    }
}

/// A page table depends on the frames of its tables alone.
pub(crate) proof fn lemma_pt_frame(pt: PageTable, k1: KmemState, k2: KmemState)
    requires
        pt.wf(k1),
        forall|p: u64| #[trigger]
            pt.is_node(p) ==> k2.frames.contains_key(p) && k2.frames[p] == k1.frames[p],
    ensures
        pt.wf(k2),
        forall|a: int| #[trigger] pt.entry(k2, a) == pt.entry(k1, a),
{
    assert(pt.is_node(pt.root));
    assert forall|i: int| #[trigger] pt.mids@.contains_key(i) implies k2.frames.contains_key(
        pt.mids@[i],
    ) && k2.frames[pt.mids@[i]] == k1.frames[pt.mids@[i]] by {
        assert(pt.is_node(pt.mids@[i]));
    }
    assert forall|t: int| #[trigger] pt.tabs@.contains_key(t) implies k2.frames.contains_key(
        pt.tabs@[t],
    ) && k2.frames[pt.tabs@[t]] == k1.frames[pt.tabs@[t]] by {
        assert(pt.is_node(pt.tabs@[t]));
    }
    assert forall|i: int, j: int|
        #![trigger k2.table(pt.mids@[i])[j]]
        pt.mids@.contains_key(i) && 0 <= j < NPTE implies k2.table(pt.mids@[i])[j]
        == crate::vm::pagetable::link(pt.tabs@, 512 * i + j) by {
        assert(k1.table(pt.mids@[i])[j] == crate::vm::pagetable::link(pt.tabs@, 512 * i + j));
    }
    assert forall|i: int| 0 <= i < NPTE implies #[trigger] k2.table(pt.root)[i]
        == crate::vm::pagetable::link(pt.mids@, i) by {
        assert(k1.table(pt.root)[i] == crate::vm::pagetable::link(pt.mids@, i));
    }
}

/// Changing one entry, on its own: what the other entries are.
pub open spec fn only(u: Uvm, k0: KmemState, k1: KmemState, n: int, pte: u64) -> bool {
    forall|m: int|
        0 <= m ==> #[trigger] u.pte(k1, m) == (if m == n {
            pte
        } else {
            u.pte(k0, m)
        })
}

pub(crate) proof fn lemma_only(u: Uvm, k0: KmemState, k1: KmemState, va: u64, pte: u64)
    requires
        forall|a: int|
            0 <= a ==> #[trigger] u.0.entry(k1, a) == (if a / (PGSIZE as int) == va as int / (
            PGSIZE as int) {
                pte
            } else {
                u.0.entry(k0, a)
            }),
    ensures
        only(u, k0, k1, va as int / (PGSIZE as int), pte),
{
    let n = va as int / (PGSIZE as int);
    assert forall|m: int| 0 <= m implies #[trigger] u.pte(k1, m) == (if m == n {
        pte
    } else {
        u.pte(k0, m)
    }) by {
        assert(m * PGSIZE / (PGSIZE as int) == m);
        assert(u.0.entry(k1, m * PGSIZE) == u.pte(k1, m));
    }
}

/// `apart` goes from step to step.
pub(crate) proof fn lemma_apart_trans(u0: Uvm, k0: KmemState, u1: Uvm, k1: KmemState, u2: Uvm, k2: KmemState)
    requires
        u0.apart(k0, u1, k1),
        u1.apart(k1, u2, k2),
        kmem_ok(k0),
        kmem_ok(k1),
        forall|q: u64| #[trigger] u0.owns(k0, q) ==> k0.frames.contains_key(q),
    ensures
        u0.apart(k0, u2, k2),
{
    assert forall|p: u64| #[trigger] k0.frames.contains_key(p) implies u0.frame_apart(
        k0,
        u2,
        k2,
        p,
    ) by {
        assert(u0.frame_apart(k0, u1, k1, p));
        assert(!k0.free.contains(p));
        if k1.frames.contains_key(p) {
            assert(u1.frame_apart(k1, u2, k2, p));
            assert(!k1.free.contains(p));
        }
        assert(u1.owns(k1, p) ==> u0.owns(k0, p));
        assert(u2.owns(k2, p) && !u1.owns(k1, p) ==> k1.free.contains(p));
        assert(u1.writes(k1, p) ==> u0.writes(k0, p) || u0.alone(k0, p));
        if u2.owns(k2, p) && u0.owns(k0, p) && !u1.owns(k1, p) {
            assert(u0.alone(k0, p));
        }
    }
    assert forall|p: u64| #[trigger] u2.owns(k2, p) implies u0.owns(k0, p) || (k0.free.contains(p)
        && k2.frames.contains_key(p) && k2.frames[p].refs == 1) by {
        if u1.owns(k1, p) {
            if !u0.owns(k0, p) {
                assert(k1.frames.contains_key(p));
                assert(u1.frame_apart(k1, u2, k2, p));
            }
        } else {
            assert(k1.free.contains(p));
            assert(u0.alone(k0, p));
        }
    }
    assert forall|p: u64| #[trigger] u2.writes(k2, p) implies u0.writes(k0, p) || u0.alone(k0, p) by {
        if !u1.writes(k1, p) {
            assert(u1.alone(k1, p));
            lemma_alone(u0, k0, u1, k1, p);
        }
    }
    assert forall|p: u64| #[trigger] k2.free.contains(p) implies u0.alone(k0, p) by {
        assert(u1.alone(k1, p));
        lemma_alone(u0, k0, u1, k1, p);
    }
}

pub(crate) proof fn lemma_alone(u0: Uvm, k0: KmemState, u1: Uvm, k1: KmemState, p: u64)
    requires
        u0.apart(k0, u1, k1),
        u1.alone(k1, p),
        forall|q: u64| #[trigger] u0.owns(k0, q) ==> k0.frames.contains_key(q),
    ensures
        u0.alone(k0, p),
{
    if k1.free.contains(p) {
    } else if u0.owns(k0, p) {
        assert(k0.frames.contains_key(p));
        assert(u0.frame_apart(k0, u1, k1, p));
    }
}

impl Uvm {
    /// What is owned is in use.
    pub proof fn lemma_owns(self, k: KmemState)
        requires
            self.wf(k),
        ensures
            forall|p: u64| #[trigger] self.owns(k, p) ==> k.frames.contains_key(p),
            forall|n: int| #[trigger]
                self.maps(k, n) ==> !self.0.is_node(page_of(self.pte(k, n))) && self.owns(
                    k,
                    page_of(self.pte(k, n)),
                ),
    {
        self.0.lemma_nodes_live(k);
        assert forall|n: int| #[trigger] self.maps(k, n) implies !self.0.is_node(
            page_of(self.pte(k, n)),
        ) by {
            assert(self.page_ok(k, n));
        }
    }

    /// Removes the user page at `va`, whose entry is `pte`, and drops its frame.
    fn drop_page(&self, kmem: &mut Kmem, va: VA, pte: PageTableEntry)
        requires
            old(kmem).wf(),
            self.wf(old(kmem)@),
            va.0 % PGSIZE == 0,
            self.maps(old(kmem)@, va.0 as int / (PGSIZE as int)),
            pte.0 == self.pte(old(kmem)@, va.0 as int / (PGSIZE as int)),
        ensures
            final(kmem).wf(),
            self.wf(final(kmem)@),
            self.mem(final(kmem)@) == self.mem(old(kmem)@).drop_page(
                va.0 as int / (PGSIZE as int),
            ),
            self.apart(old(kmem)@, *self, final(kmem)@),
            only(*self, old(kmem)@, final(kmem)@, va.0 as int / (PGSIZE as int), 0),
    {
        let ghost k0 = kmem@;
        let ghost n = va.0 as int / (PGSIZE as int);
        let p = pte.as_pa().0;
        proof {
            kmem.lemma_wf();
            self.lemma_owns(k0);
            crate::vm::lemma_zero_invalid();
            assert(self.0.has_tab(va.0 as int));
        }
        self.0.set(kmem, va, PageTableEntry(0));
        let ghost k1 = kmem@;
        proof {
            lemma_only(*self, k0, k1, va.0, 0);
            assert(self.page_ok(k0, n));
            assert(k1.frames.contains_key(p) && k1.frames[p] == k0.frames[p]);
        }
        kmem.release(p);
        let ghost k2 = kmem@;
        proof {
            self.0.lemma_nodes_live(k1);
            lemma_pt_frame(self.0, k1, k2);
            assert forall|m: int| 0 <= m implies #[trigger] self.pte(k2, m) == (if m == n {
                0
            } else {
                self.pte(k0, m)
            }) by {
                assert(self.pte(k1, m) == self.pte(k2, m));
            }
            assert forall|m: int| #[trigger] self.maps(k2, m) implies self.maps(k0, m) && m != n
                && page_of(self.pte(k0, m)) != p by {
                assert(self.pte(k2, m) == self.pte(k0, m));
                assert(self.maps(k0, m));
                assert(self.maps(k0, n));
            }
            assert forall|m: int| #[trigger] self.maps(k2, m) implies self.page_ok(k2, m) by {
                assert(self.page_ok(k0, m));
            }
            assert(self.wf(k2)) by {
                assert forall|a: int, b: int|
                    #![trigger self.maps(k2, a), self.maps(k2, b)]
                    self.maps(k2, a) && self.maps(k2, b) && a != b implies page_of(self.pte(k2, a))
                    != page_of(self.pte(k2, b)) by {
                    assert(self.maps(k0, a) && self.maps(k0, b));
                }
            }
            lemma_mem(*self, k0, n);
            assert(self.mem(k2).pages =~= self.mem(k0).drop_page(n).pages) by {
                assert forall|m: int| 0 <= m < MAXPAGES && m != n && flag(self.pte(k0, m), PTE_V) implies #[trigger] self.mem(
                    k2,
                ).pages[m] == self.mem(k0).pages[m] by {
                    if m < UPAGES {
                        assert(self.maps(k0, m));
                        assert(self.maps(k2, m));
                    }
                }
            }
            assert(self.mem(k2) =~= self.mem(k0).drop_page(n));
            assert(self.apart(k0, *self, k2)) by {
                assert forall|q: u64| #[trigger] self.owns(k2, q) implies self.owns(k0, q) && q != p by {
                    if !self.0.is_node(q) {
                        let m = choose|m: int| #[trigger]
                            self.maps(k2, m) && page_of(self.pte(k2, m)) == q;
                        assert(self.maps(k0, m));
                    }
                }
                assert forall|q: u64| #[trigger] self.writes(k2, q) implies self.writes(k0, q) by {
                    let m = choose|m: int| #[trigger]
                        self.maps(k2, m) && page_of(self.pte(k2, m)) == q && flag(
                            self.pte(k2, m),
                            PTE_W,
                        );
                    assert(self.maps(k0, m));
                }
                assert forall|q: u64| #[trigger] k0.frames.contains_key(q) implies self.frame_apart(
                    k0,
                    *self,
                    k2,
                    q,
                ) by {
                    if self.0.is_node(q) {
                        assert(k1.frames.contains_key(q));
                        assert(k0.frames[q].refs == 1);
                        assert(k1.frames[q].refs == 1);
                    } else {
                        assert(k1.frames[q] == k0.frames[q]);
                        if self.owns(k0, q) && q != p {
                            let m = choose|m: int| #[trigger]
                                self.maps(k0, m) && page_of(self.pte(k0, m)) == q;
                            assert(self.maps(k0, m) && m != n);
                            assert(self.pte(k2, m) == self.pte(k0, m));
                            assert(self.maps(k2, m));
                        }
                    }
                }
                assert forall|q: u64| #[trigger] k2.free.contains(q) implies self.alone(k0, q) by {}
            }
        }
    }
}

/// An entry made of a frame and permissions is valid and gives both back.
pub(crate) proof fn lemma_new_pte(p: u64, perm: u64)
    requires
        page_ok(p),
        perm < 0x400,
        leaf(perm),
    ensures
        page_of(entry_of(p) | perm | PTE_V) == p,
        flags_of(entry_of(p) | perm | PTE_V) == perm | PTE_V,
        flag(entry_of(p) | perm | PTE_V, PTE_V),
        leaf(entry_of(p) | perm | PTE_V),
        plain(entry_of(p) | perm | PTE_V),
        flag(entry_of(p) | perm | PTE_V, PTE_W) == flag(perm, PTE_W),
        perm | PTE_V < 0x400,
{
    let e = entry_of(p);
    assert(e | perm | 1 == e | (perm | 1)) by (bit_vector);
    assert(perm | 1 < 0x400) by (bit_vector)
        requires
            perm < 0x400,
    ;
    law_pte_roundtrip(p, perm | PTE_V);
    let pte = e | perm | PTE_V;
    lemma_flags(pte);
    assert((perm | 1) & 1 != 0 && ((perm | 1) & (8u64 | 4u64 | 2u64) == perm & (8u64 | 4u64 | 2u64))
        && (perm | 1) & 4 == perm & 4) by (bit_vector);
}

impl Uvm {
    /// What a change of tables alone, and of frames that are not the process's, means for it.
    pub(crate) proof fn lemma_grown(self, k0: KmemState, new: Uvm, k1: KmemState)
        requires
            self.wf(k0),
            kmem_ok(k0),
            new.0.wf(k1),
            self.0.grown(k0, new.0, k1),
        ensures
            new.wf(k1),
            new.mem(k1).pages == self.mem(k0).pages,
            self.apart(k0, new, k1),
            forall|n: int| 0 <= n ==> #[trigger] new.pte(k1, n) == self.pte(k0, n),
    {
        self.lemma_owns(k0);
        new.0.lemma_nodes_live(k1);
        assert forall|n: int| 0 <= n implies #[trigger] new.pte(k1, n) == self.pte(k0, n) by {
            assert(new.0.entry(k1, n * PGSIZE) == self.0.entry(k0, n * PGSIZE));
        }
        assert forall|n: int| #[trigger] new.maps(k1, n) == self.maps(k0, n) by {
            if 0 <= n {
                assert(new.pte(k1, n) == self.pte(k0, n));
            }
        }
        assert forall|n: int| #[trigger] self.maps(k0, n) implies k1.frames.contains_key(
            page_of(self.pte(k0, n)),
        ) && k1.frames[page_of(self.pte(k0, n))] == k0.frames[page_of(self.pte(k0, n))] by {
            assert(self.page_ok(k0, n));
        }
        assert forall|n: int| #[trigger] new.maps(k1, n) implies new.page_ok(k1, n) by {
            assert(self.maps(k0, n));
            assert(self.page_ok(k0, n));
        }
        assert forall|a: int, b: int|
            #![trigger new.maps(k1, a), new.maps(k1, b)]
            new.maps(k1, a) && new.maps(k1, b) && a != b implies page_of(new.pte(k1, a)) != page_of(
            new.pte(k1, b),
        ) by {
            assert(self.maps(k0, a) && self.maps(k0, b));
        }
        assert(new.mem(k1).pages =~= self.mem(k0).pages) by {
            assert forall|m: int| 0 <= m < MAXPAGES && flag(self.pte(k0, m), PTE_V) implies #[trigger] new.page(
                k1,
                m,
            ) == self.page(k0, m) by {
                if m < UPAGES {
                    assert(self.maps(k0, m));
                }
            }
            assert forall|m: int| 0 <= m < MAXPAGES implies flag(new.pte(k1, m), PTE_V) == flag(
                self.pte(k0, m),
                PTE_V,
            ) by {}
        }
        assert forall|q: u64| #[trigger] new.owns(k1, q) implies self.owns(k0, q) || (k0.free.contains(
            q,
        ) && k1.frames.contains_key(q) && k1.frames[q].refs == 1) by {
            if !new.0.is_node(q) {
                let m = choose|m: int| #[trigger] new.maps(k1, m) && page_of(new.pte(k1, m)) == q;
                assert(self.maps(k0, m));
            }
        }
        assert forall|q: u64| #[trigger] new.writes(k1, q) implies self.writes(k0, q) by {
            let m = choose|m: int| #[trigger]
                new.maps(k1, m) && page_of(new.pte(k1, m)) == q && flag(new.pte(k1, m), PTE_W);
            assert(self.maps(k0, m));
        }
        assert forall|q: u64| #[trigger] k0.frames.contains_key(q) implies self.frame_apart(
            k0,
            new,
            k1,
            q,
        ) by {
            assert(k1.frames.contains_key(q));
            if self.0.is_node(q) {
                lemma_node_kept(self.0, k0, new.0, k1, q);
                assert(k0.frames[q].refs == 1);
            } else if self.owns(k0, q) {
                let m = choose|m: int| #[trigger] self.maps(k0, m) && page_of(self.pte(k0, m)) == q;
                assert(self.maps(k0, m));
                assert(new.maps(k1, m));
            }
        }
    }

    /// Adds a zeroed page at `va`, which must not be mapped. Returns its frame.
    pub(crate) fn add_page(&mut self, kmem: &mut Kmem, va: VA, perm: u64) -> (r: Result<PA, VmError>)
        requires
            old(kmem).wf(),
            old(self).wf(old(kmem)@),
            va.0 % PGSIZE == 0,
            va.0 + PGSIZE <= u64::MAX,
            perm < 0x400,
            leaf(perm),
            !old(self).mem(old(kmem)@).pages.contains_key(va.0 as int / (PGSIZE as int)),
            old(self).mem(old(kmem)@).add_page(va.0 as int / (PGSIZE as int), perm) is Some,
        ensures
            final(kmem).wf(),
            final(self).wf(final(kmem)@),
            ({
                let (m, result) = old(self).mem(old(kmem)@).add_page(
                    va.0 as int / (PGSIZE as int),
                    perm,
                )->0;
                &&& final(self).mem(final(kmem)@) == m
                &&& r is Ok <==> result is Ok
                &&& r matches Err(e) ==> result == Err::<(), VmError>(e)
                &&& r matches Ok(pa) ==> pa.0 == page_of(
                    final(self).pte(final(kmem)@, va.0 as int / (PGSIZE as int)),
                )
            }),
            r matches Ok(pa) ==> old(kmem)@.free.contains(pa.0) && final(self).pte(
                final(kmem)@,
                va.0 as int / (PGSIZE as int),
            ) == entry_of(pa.0) | perm | PTE_V,
            old(self).apart(old(kmem)@, *final(self), final(kmem)@),
            forall|n: int|
                0 <= n && (n != va.0 as int / (PGSIZE as int) || r is Err) ==> #[trigger] final(self).pte(
                    final(kmem)@,
                    n,
                ) == old(self).pte(old(kmem)@, n),
    {
        let ghost k0 = kmem@;
        let ghost s0 = *self;
        let ghost n = va.0 as int / (PGSIZE as int);
        proof {
            kmem.lemma_wf();
            self.lemma_owns(k0);
            assert(n * PGSIZE == va.0);
        }
        let p = match kmem.allocate_page() {
            Some(p) => p,
            None => {
                proof {
                    s0.lemma_refl(k0);
                }
                return Err(VmError::Alloc);
            },
        };
        let ghost k1 = kmem@;
        proof {
            kmem.lemma_wf();
            assert(!k0.frames.contains_key(p));
            assert(!s0.owns(k0, p));
            lemma_pt_frame(s0.0, k0, k1);
            lemma_new_pte(p, perm);
            assert(!flag(s0.0.entry(k1, va.0 as int), PTE_V)) by {
                if n < MAXPAGES {
                    lemma_mem(s0, k0, n);
                    assert(s0.0.entry(k1, va.0 as int) == s0.0.entry(k0, va.0 as int));
                } else {
                    lemma_beyond(s0.0, k0, va.0 as int);
                    crate::vm::lemma_zero_invalid();
                }
            }
            assert forall|a: int| va.0 <= a < va.0 + PGSIZE implies !flag(
                #[trigger] s0.0.entry(k1, a),
                PTE_V,
            ) by {
                lemma_entry_page(s0.0, k1, a);
                assert(a / (PGSIZE as int) == n);
            }
            reveal_with_fuel(Shape::map_run, 2);
        }
        match self.0.map_pages(kmem, va, PA(p), PGSIZE, perm) {
            Ok(()) => {
                let ghost k2 = kmem@;
                proof {
                    let u2 = *self;
                    let e = entry_of(p) | perm | PTE_V;
                    assert forall|m: int| 0 <= m implies #[trigger] u2.pte(k2, m) == (if m == n {
                        e
                    } else {
                        s0.pte(k0, m)
                    }) by {
                        assert(m * PGSIZE / (PGSIZE as int) == m);
                        assert(u2.0.entry(k2, m * PGSIZE) == u2.pte(k2, m));
                        assert(s0.0.entry(k1, m * PGSIZE) == s0.0.entry(k0, m * PGSIZE));
                        if m == n {
                            assert((m * PGSIZE - va.0) / (PGSIZE as int) * PGSIZE == 0);
                        } else if m < n {
                            assert(m * PGSIZE < va.0);
                        } else {
                            assert(m * PGSIZE >= va.0 + PGSIZE);
                        }
                    }
                    self.lemma_added(s0, k0, k1, k2, n, p, perm);
                    assert(self.mem(k2) =~= (s0.mem(k0).add_page(n, perm)->0).0);
                }
                Ok(PA(p))
            },
            Err(e) => {
                let ghost k2 = kmem@;
                proof {
                    kmem.lemma_wf();
                    assert(!s0.0.is_node(p));
                    assert(k2.frames[p] == k1.frames[p]);
                    self.0.lemma_nodes_live(k2);
                }
                kmem.release(p);
                let ghost k3 = kmem@;
                proof {
                    lemma_pt_frame(self.0, k2, k3);
                    assert(k3.free =~= k2.free.insert(p));
                    assert(!k2.free.contains(p));
                    assert forall|a: int| 0 <= a implies #[trigger] self.0.entry(k3, a) == s0.0.entry(
                        k0,
                        a,
                    ) by {
                        assert(self.0.entry(k2, a) == self.0.entry(k3, a));
                        assert(s0.0.entry(k1, a) == s0.0.entry(k0, a));
                    }
                    assert(s0.0.grown(k0, self.0, k3)) by {
                        assert forall|q: u64| #[trigger] self.0.is_node(q) implies s0.0.is_node(q) || (
                        k0.free.contains(q) && !k3.free.contains(q)) by {
                            if !s0.0.is_node(q) {
                                assert(k1.free.contains(q) && !k2.free.contains(q));
                            }
                        }
                    }
                    s0.lemma_grown(k0, *self, k3);
                    assert(self.mem(k3) =~= (s0.mem(k0).add_page(n, perm)->0).0);
                }
                Err(e)
            },
        }
    }

    pub(crate) proof fn lemma_refl(self, k: KmemState)
        requires
            self.wf(k),
            kmem_ok(k),
        ensures
            self.apart(k, self, k),
    {
        self.lemma_owns(k);
    }

    /// Mapping the new frame `p` as page `n`.
    pub(crate) proof fn lemma_added(
        self,
        s0: Uvm,
        k0: KmemState,
        k1: KmemState,
        k2: KmemState,
        n: int,
        p: u64,
        perm: u64,
    )
        requires
            s0.wf(k0),
            kmem_ok(k0),
            0 <= n < UPAGES,
            !flag(s0.pte(k0, n), PTE_V),
            perm < 0x400,
            leaf(perm),
            page_ok(p),
            k0.free.contains(p),
            k1 == k0.allocated(p, Content::Page(zero_page())),
            s0.0.grew(k1, self.0, k2),
            self.0.wf(k2),
            forall|m: int|
                0 <= m ==> #[trigger] self.pte(k2, m) == (if m == n {
                    entry_of(p) | perm | PTE_V
                } else {
                    s0.pte(k0, m)
                }),
        ensures
            self.wf(k2),
            s0.apart(k0, self, k2),
            self.mem(k2).pages == s0.mem(k0).pages.insert(
                n,
                UserPage { flags: perm | PTE_V, data: zero_page(), refs: 1 },
            ),
            page_of(self.pte(k2, n)) == p,
    {
        s0.lemma_owns(k0);
        self.0.lemma_nodes_live(k2);
        lemma_new_pte(p, perm);
        assert(!s0.0.is_node(p)) by {
            if s0.0.is_node(p) {
                assert(s0.owns(k0, p));
            }
        }
        assert(k1.frames.contains_key(p));
        assert(k2.frames[p] == k1.frames[p]);
        assert(self.maps(k2, n));
        assert forall|m: int| m != n implies #[trigger] self.maps(k2, m) == s0.maps(k0, m) by {
            if 0 <= m {
                assert(self.pte(k2, m) == s0.pte(k0, m));
            }
        }
        assert forall|m: int| #[trigger] s0.maps(k0, m) implies page_of(s0.pte(k0, m)) != p
            && k2.frames.contains_key(page_of(s0.pte(k0, m))) && k2.frames[page_of(s0.pte(k0, m))]
            == k0.frames[page_of(s0.pte(k0, m))] by {
            let q = page_of(s0.pte(k0, m));
            assert(s0.page_ok(k0, m));
            assert(k1.frames.contains_key(q) && k1.frames[q] == k0.frames[q]);
        }
        assert forall|m: int| #[trigger] self.maps(k2, m) implies self.page_ok(k2, m) by {
            if m != n {
                assert(s0.maps(k0, m));
                assert(s0.page_ok(k0, m));
            }
        }
        assert forall|a: int, b: int|
            #![trigger self.maps(k2, a), self.maps(k2, b)]
            self.maps(k2, a) && self.maps(k2, b) && a != b implies page_of(self.pte(k2, a)) != page_of(
            self.pte(k2, b),
        ) by {
            if a != n {
                assert(s0.maps(k0, a));
            }
            if b != n {
                assert(s0.maps(k0, b));
            }
        }
        assert(self.mem(k2).pages =~= s0.mem(k0).pages.insert(
            n,
            UserPage { flags: perm | PTE_V, data: zero_page(), refs: 1 },
        )) by {
            assert forall|m: int| 0 <= m < MAXPAGES && m != n && flag(s0.pte(k0, m), PTE_V) implies #[trigger] self.page(
                k2,
                m,
            ) == s0.page(k0, m) by {
                if m < UPAGES {
                    assert(s0.maps(k0, m));
                }
            }
            assert forall|m: int| 0 <= m < MAXPAGES && m != n implies flag(self.pte(k2, m), PTE_V) == flag(
                s0.pte(k0, m),
                PTE_V,
            ) by {}
        }
        assert(s0.apart(k0, self, k2)) by {
            assert forall|q: u64| #[trigger] self.owns(k2, q) implies s0.owns(k0, q) || (k0.free.contains(
                q,
            ) && k2.frames.contains_key(q) && k2.frames[q].refs == 1) by {
                if self.0.is_node(q) {
                    if !s0.0.is_node(q) {
                        assert(k1.free.contains(q));
                    }
                } else {
                    let m = choose|m: int| #[trigger]
                        self.maps(k2, m) && page_of(self.pte(k2, m)) == q;
                    if m != n {
                        assert(s0.maps(k0, m));
                    }
                }
            }
            assert forall|q: u64| #[trigger] self.writes(k2, q) implies s0.writes(k0, q) || s0.alone(
                k0,
                q,
            ) by {
                let m = choose|m: int| #[trigger]
                    self.maps(k2, m) && page_of(self.pte(k2, m)) == q && flag(
                        self.pte(k2, m),
                        PTE_W,
                    );
                if m != n {
                    assert(s0.maps(k0, m));
                }
            }
            assert forall|q: u64| #[trigger] k0.frames.contains_key(q) implies s0.frame_apart(
                k0,
                self,
                k2,
                q,
            ) by {
                assert(k1.frames.contains_key(q) && k1.frames[q] == k0.frames[q]);
                assert(k2.frames.contains_key(q));
                if s0.0.is_node(q) {
                    lemma_node_kept(s0.0, k1, self.0, k2, q);
                    assert(k0.frames[q].refs == 1);
                } else if s0.owns(k0, q) {
                    let m = choose|m: int| #[trigger] s0.maps(k0, m) && page_of(s0.pte(k0, m)) == q;
                    assert(s0.maps(k0, m));
                    assert(self.maps(k2, m));
                }
            }
            assert forall|q: u64| #[trigger] k2.free.contains(q) implies s0.alone(k0, q) by {
                assert(k1.free.contains(q));
            }
        }
    }
}

/// A page table that grew still has the tables it had.
pub(crate) proof fn lemma_node_kept(pt: PageTable, k0: KmemState, new: PageTable, k1: KmemState, p: u64)
    requires
        pt.grew(k0, new, k1),
        pt.is_node(p),
    ensures
        new.is_node(p),
{
    if p != pt.root {
        if exists|i: int| #[trigger] pt.mids@.contains_key(i) && pt.mids@[i] == p {
            let i = choose|i: int| #[trigger] pt.mids@.contains_key(i) && pt.mids@[i] == p;
            assert(new.mids@.contains_key(i));
        } else {
            let t = choose|t: int| #[trigger] pt.tabs@.contains_key(t) && pt.tabs@[t] == p;
            assert(new.tabs@.contains_key(t));
        }
    }
}

/// There is no entry beyond the highest address.
pub(crate) proof fn lemma_beyond(pt: PageTable, k: KmemState, a: int)
    requires
        pt.wf(k),
        MAXVA <= a,
    ensures
        pt.entry(k, a) == 0,
{
    assert(tab_of(a) >= 0x2_0000);
}

impl Uvm {
    /// Changing the flags of page `n`, but not its frame.
    pub(crate) proof fn lemma_retag(self, k0: KmemState, k1: KmemState, n: int, pte: u64)
        requires
            self.wf(k0),
            kmem_ok(k0),
            self.0.wf(k1),
            self.0.grew(k0, self.0, k1),
            k1.free == k0.free,
            0 <= n < MAXPAGES,
            only(self, k0, k1, n, pte),
            flag(self.pte(k0, n), PTE_V),
            flag(pte, PTE_V),
            n < UPAGES ==> page_of(pte) == page_of(self.pte(k0, n)) && leaf(pte) && plain(pte),
        ensures
            self.wf(k1),
            self.mem(k1) == (UserMem {
                pages: self.mem(k0).pages.insert(
                    n,
                    UserPage { flags: flags_of(pte), ..self.page(k0, n) },
                ),
                ..self.mem(k0)
            }),
            flag(pte, PTE_W) ==> flag(self.pte(k0, n), PTE_W) || n >= UPAGES ==> self.apart(
                k0,
                self,
                k1,
            ),
            forall|m: int| #[trigger] self.maps(k1, m) == self.maps(k0, m),
            forall|p: u64| #[trigger] self.owns(k1, p) == self.owns(k0, p),
    {
        self.lemma_owns(k0);
        self.0.lemma_nodes_live(k1);
        assert forall|m: int| #[trigger] self.maps(k1, m) == self.maps(k0, m) by {
            if 0 <= m {
                assert(self.pte(k1, m) == self.pte(k1, m));
            }
        }
        assert forall|m: int| #[trigger] self.maps(k0, m) implies page_of(self.pte(k1, m)) == page_of(
            self.pte(k0, m),
        ) && k1.frames.contains_key(page_of(self.pte(k0, m))) && k1.frames[page_of(self.pte(k0, m))]
            == k0.frames[page_of(self.pte(k0, m))] by {
            assert(self.page_ok(k0, m));
            assert(self.pte(k1, m) == self.pte(k1, m));
        }
        assert forall|m: int| #[trigger] self.maps(k1, m) implies self.page_ok(k1, m) by {
            assert(self.maps(k0, m));
            assert(self.page_ok(k0, m));
        }
        assert forall|a: int, b: int|
            #![trigger self.maps(k1, a), self.maps(k1, b)]
            self.maps(k1, a) && self.maps(k1, b) && a != b implies page_of(self.pte(k1, a)) != page_of(
            self.pte(k1, b),
        ) by {
            assert(self.maps(k0, a) && self.maps(k0, b));
        }
        assert(self.mem(k1).pages =~= self.mem(k0).pages.insert(
            n,
            UserPage { flags: flags_of(pte), ..self.page(k0, n) },
        )) by {
            assert forall|m: int| 0 <= m < MAXPAGES implies #[trigger] self.pte(k1, m) == (if m == n {
                pte
            } else {
                self.pte(k0, m)
            }) by {}
            assert forall|m: int| 0 <= m < MAXPAGES && m != n && flag(self.pte(k0, m), PTE_V) implies #[trigger] self.page(
                k1,
                m,
            ) == self.page(k0, m) by {
                if m < UPAGES {
                    assert(self.maps(k0, m));
                }
            }
            if n < UPAGES {
                assert(self.maps(k0, n));
            }
        }
        assert forall|q: u64| #[trigger] self.owns(k1, q) == self.owns(k0, q) by {
            if self.owns(k1, q) && !self.0.is_node(q) {
                let m = choose|m: int| #[trigger] self.maps(k1, m) && page_of(self.pte(k1, m)) == q;
                assert(self.maps(k0, m));
            }
            if self.owns(k0, q) && !self.0.is_node(q) {
                let m = choose|m: int| #[trigger] self.maps(k0, m) && page_of(self.pte(k0, m)) == q;
                assert(self.maps(k1, m));
            }
        }
        if flag(pte, PTE_W) ==> flag(self.pte(k0, n), PTE_W) || n >= UPAGES {
            assert forall|q: u64| #[trigger] self.writes(k1, q) implies self.writes(k0, q) by {
                let m = choose|m: int| #[trigger]
                    self.maps(k1, m) && page_of(self.pte(k1, m)) == q && flag(
                        self.pte(k1, m),
                        PTE_W,
                    );
                assert(self.maps(k0, m));
                assert(self.pte(k1, m) == self.pte(k1, m));
            }
            assert forall|q: u64| #[trigger] k0.frames.contains_key(q) implies self.frame_apart(
                k0,
                self,
                k1,
                q,
            ) by {
                assert(k1.frames.contains_key(q));
                if self.0.is_node(q) {
                    assert(k0.frames[q].refs == 1);
                }
            }
            assert(self.apart(k0, self, k1));
        }
    }

    /// Removes `npages` of mappings starting from `va`.
    ///
    /// `va` must be page-aligned.
    /// Pages that were never faulted in (lazy allocation) are silently skipped.
    ///
    /// Optionally, frees the physical memory.
    pub fn unmap(&mut self, kmem: &mut Kmem, va: VA, npages: u64, free: bool)
        requires
            old(kmem).wf(),
            old(self).wf(old(kmem)@),
            va.0 % PGSIZE == 0,
            (va.0 as int / (PGSIZE as int) + npages) * PGSIZE <= u64::MAX,
            !free ==> va.0 as int / (PGSIZE as int) + npages <= MAXPAGES,
            free ==> forall|m: int|
                va.0 as int / (PGSIZE as int) <= m < va.0 as int / (PGSIZE as int) + npages && m
                    >= UPAGES ==> !(#[trigger] old(self).mem(old(kmem)@).pages.contains_key(m)),
            !free ==> va.0 as int / (PGSIZE as int) >= UPAGES && forall|m: int|
                va.0 as int / (PGSIZE as int) <= m < va.0 as int / (PGSIZE as int) + npages && flag(
                    #[trigger] old(self).pte(old(kmem)@, m),
                    PTE_V,
                ) ==> leaf(old(self).pte(old(kmem)@, m)),
        ensures
            *final(self) == *old(self),
            final(kmem).wf(),
            final(self).wf(final(kmem)@),
            old(self).apart(old(kmem)@, *final(self), final(kmem)@),
            free ==> final(self).mem(final(kmem)@) == old(self).mem(old(kmem)@).unmap(
                va.0 as int / (PGSIZE as int),
                npages as nat,
            ),
            !free ==> final(self).mem(final(kmem)@) == old(self).mem(old(kmem)@).forget(
                va.0 as int / (PGSIZE as int),
                npages as nat,
            ),
            forall|m: int|
                0 <= m && !(va.0 as int / (PGSIZE as int) <= m < va.0 as int / (PGSIZE as int)
                    + npages) ==> #[trigger] final(self).pte(final(kmem)@, m) == old(self).pte(
                    old(kmem)@,
                    m,
                ),
            free ==> forall|m: int|
                UPAGES <= m ==> #[trigger] final(self).pte(final(kmem)@, m) == old(self).pte(
                    old(kmem)@,
                    m,
                ),
            // the entries of the pages that were there are empty
            forall|m: int|
                va.0 as int / (PGSIZE as int) <= m < va.0 as int / (PGSIZE as int) + npages
                    ==> #[trigger] final(self).pte(final(kmem)@, m) == (if flag(
                    old(self).pte(old(kmem)@, m),
                    PTE_V,
                ) {
                    0
                } else {
                    old(self).pte(old(kmem)@, m)
                }),
    {
        let ghost k0 = kmem@;
        let ghost n = va.0 as int / (PGSIZE as int);
        let ghost want = if free {
            self.mem(k0).unmap(n, npages as nat)
        } else {
            self.mem(k0).forget(n, npages as nat)
        };
        let mut i: u64 = 0;
        proof {
            kmem.lemma_wf();
            self.lemma_refl(k0);
            self.lemma_owns(k0);
        }
        while i < npages
            invariant
                i <= npages,
                *self == *old(self),
                k0 == old(kmem)@,
                kmem_ok(k0),
                kmem.wf(),
                self.wf(kmem@),
                forall|p: u64| #[trigger] self.owns(k0, p) ==> k0.frames.contains_key(p),
                va.0 % PGSIZE == 0,
                n == va.0 as int / (PGSIZE as int),
                (n + npages) * PGSIZE <= u64::MAX,
                !free ==> n + npages <= MAXPAGES,
                self.apart(k0, *self, kmem@),
                forall|m: int|
                    0 <= m && !(n <= m < n + i) ==> #[trigger] self.pte(kmem@, m) == self.pte(k0, m),
                forall|m: int|
                    n <= m < n + i ==> #[trigger] self.pte(kmem@, m) == (if flag(
                        self.pte(k0, m),
                        PTE_V,
                    ) {
                        0
                    } else {
                        self.pte(k0, m)
                    }),
                free ==> forall|m: int|
                    UPAGES <= m ==> #[trigger] self.pte(kmem@, m) == self.pte(k0, m),
                free ==> forall|m: int|
                    n <= m < n + npages && m >= UPAGES ==> !(#[trigger] self.mem(
                        k0,
                    ).pages.contains_key(m)),
                !free ==> n >= UPAGES && forall|m: int|
                    n <= m < n + npages && flag(#[trigger] self.pte(k0, m), PTE_V) ==> leaf(
                        self.pte(k0, m),
                    ),
                free ==> want == self.mem(kmem@).unmap(n + i, (npages - i) as nat),
                !free ==> want == self.mem(kmem@).forget(n + i, (npages - i) as nat),
                want == (if free {
                    self.mem(k0).unmap(n, npages as nat)
                } else {
                    self.mem(k0).forget(n, npages as nat)
                }),
            decreases npages - i,
        {
            let a = VA(va.0 + i * PGSIZE);
            let ghost m = n + i;
            let ghost k1 = kmem@;
            proof {
                kmem.lemma_wf();
                assert(a.0 as int / (PGSIZE as int) == m && a.0 % PGSIZE == 0 && m * PGSIZE == a.0);
                if m < MAXPAGES {
                    lemma_mem(*self, k1, m);
                    lemma_mem(*self, k0, m);
                } else {
                    lemma_beyond(self.0, k1, a.0 as int);
                }
                assert(self.pte(k1, m) == self.pte(k0, m));
                crate::vm::lemma_zero_invalid();
            }
            match self.0.walk(kmem, a) {
                // An intermediate page-table page is absent; this region was never touched by a
                // page fault.
                Err(_) => {
                    assert(!flag(self.pte(k1, m), PTE_V));
                    assert(self.mem(k1).drop_page(m) == self.mem(k1));
                    assert(self.mem(k1).pages.remove(m) =~= self.mem(k1).pages);
                },
                Ok(pte) => {
                    if !pte.is_v() {
                        // Leaf PTE is invalid; page was lazily allocated but never faulted in.
                        assert(self.mem(k1).pages.remove(m) =~= self.mem(k1).pages);
                    } else if free {
                        assert(m < UPAGES);
                        assert(self.maps(k1, m));
                        self.drop_page(kmem, a, pte);
                        proof {
                            lemma_apart_trans(*self, k0, *self, k1, *self, kmem@);
                        }
                    } else {
                        self.0.set(kmem, a, PageTableEntry(0));
                        proof {
                            lemma_only(*self, k1, kmem@, a.0, 0);
                            self.lemma_forget(k1, kmem@, m, 0);
                            lemma_apart_trans(*self, k0, *self, k1, *self, kmem@);
                        }
                    }
                },
            }
            i += 1;
        }
    }

    /// Making the entry of page `n` invalid, which is not for the process or was invalid before.
    pub(crate) proof fn lemma_forget(self, k0: KmemState, k1: KmemState, n: int, pte: u64)
        requires
            self.wf(k0),
            kmem_ok(k0),
            self.0.wf(k1),
            self.0.grew(k0, self.0, k1),
            k1.free == k0.free,
            0 <= n < MAXPAGES,
            UPAGES <= n || !flag(self.pte(k0, n), PTE_V),
            !flag(pte, PTE_V),
            only(self, k0, k1, n, pte),
        ensures
            self.wf(k1),
            self.mem(k1) == (UserMem { pages: self.mem(k0).pages.remove(n), ..self.mem(k0) }),
            self.apart(k0, self, k1),
    {
        self.lemma_owns(k0);
        self.0.lemma_nodes_live(k1);
        assert forall|m: int| 0 <= m && m != n implies #[trigger] self.pte(k1, m) == self.pte(k0, m) by {}
        assert(self.pte(k1, n) == pte);
        assert forall|m: int| #[trigger] self.maps(k1, m) == self.maps(k0, m) by {}
        assert forall|m: int| #[trigger] self.maps(k0, m) implies k1.frames.contains_key(
            page_of(self.pte(k0, m)),
        ) && k1.frames[page_of(self.pte(k0, m))] == k0.frames[page_of(self.pte(k0, m))] by {
            assert(self.page_ok(k0, m));
        }
        assert forall|m: int| #[trigger] self.maps(k1, m) implies self.page_ok(k1, m) by {
            assert(self.maps(k0, m));
            assert(self.page_ok(k0, m));
        }
        assert forall|a: int, b: int|
            #![trigger self.maps(k1, a), self.maps(k1, b)]
            self.maps(k1, a) && self.maps(k1, b) && a != b implies page_of(self.pte(k1, a)) != page_of(
            self.pte(k1, b),
        ) by {
            assert(self.maps(k0, a) && self.maps(k0, b));
        }
        assert(self.mem(k1).pages =~= self.mem(k0).pages.remove(n)) by {
            assert forall|m: int| 0 <= m < MAXPAGES implies #[trigger] self.pte(k1, m) == (if m == n {
                pte
            } else {
                self.pte(k0, m)
            }) by {}
            assert forall|m: int| 0 <= m < MAXPAGES && m != n && flag(self.pte(k0, m), PTE_V) implies #[trigger] self.page(
                k1,
                m,
            ) == self.page(k0, m) by {
                if m < UPAGES {
                    assert(self.maps(k0, m));
                }
            }
        }
        assert forall|q: u64| #[trigger] self.owns(k1, q) == self.owns(k0, q) by {
            if self.owns(k1, q) && !self.0.is_node(q) {
                let m = choose|m: int| #[trigger] self.maps(k1, m) && page_of(self.pte(k1, m)) == q;
                assert(self.maps(k0, m));
            }
            if self.owns(k0, q) && !self.0.is_node(q) {
                let m = choose|m: int| #[trigger] self.maps(k0, m) && page_of(self.pte(k0, m)) == q;
                assert(self.maps(k1, m));
            }
        }
        assert forall|q: u64| #[trigger] self.writes(k1, q) implies self.writes(k0, q) by {
            let m = choose|m: int| #[trigger]
                self.maps(k1, m) && page_of(self.pte(k1, m)) == q && flag(self.pte(k1, m), PTE_W);
            assert(self.maps(k0, m));
        }
        assert forall|q: u64| #[trigger] k0.frames.contains_key(q) implies self.frame_apart(
            k0,
            self,
            k1,
            q,
        ) by {
            assert(k1.frames.contains_key(q));
            if self.0.is_node(q) {
                assert(k0.frames[q].refs == 1);
            }
        }
    }

    /// Allocates PTEs and physical memory to grow process from `old_size` to `new_size`,
    /// which need not be page aligned.
    ///
    /// Returns the new process size or error.
    pub fn allocate(&mut self, kmem: &mut Kmem, old_size: u64, new_size: u64, xperm: u64) -> (r: Result<
        u64,
        VmError,
    >)
        requires
            old(kmem).wf(),
            old(self).wf(old(kmem)@),
            old_size <= u64::MAX - 2 * PGSIZE,
            xperm < 0x400,
            old(self).mem(old(kmem)@).allocate(old_size as int, new_size as int, xperm) is Some,
        ensures
            final(kmem).wf(),
            final(self).wf(final(kmem)@),
            Some((final(self).mem(final(kmem)@), r)) == old(self).mem(old(kmem)@).allocate(
                old_size as int,
                new_size as int,
                xperm,
            ),
            old(self).apart(old(kmem)@, *final(self), final(kmem)@),
            forall|m: int|
                UPAGES <= m ==> #[trigger] final(self).pte(final(kmem)@, m) == old(self).pte(
                    old(kmem)@,
                    m,
                ),
    {
        let ghost k0 = kmem@;
        let ghost s0 = *self;
        proof {
            kmem.lemma_wf();
            self.lemma_refl(k0);
            self.lemma_owns(k0);
        }
        if new_size < old_size {
            return Ok(old_size);
        }
        let perm = PTE_R | PTE_U | xperm;
        proof {
            assert(2u64 | 16u64 | xperm < 0x400 && (2u64 | 16u64 | xperm) & (8u64 | 4u64 | 2u64) != 0)
                by (bit_vector)
                requires
                    xperm < 0x400,
            ;
        }
        let start = pg_round_up(old_size);
        let ghost n0 = start as int / (PGSIZE as int);
        let ghost end = round_up(new_size as int) / (PGSIZE as int);
        let ghost want = s0.mem(k0).add_pages(n0, n0, end, perm);
        let mut i: u64 = start;
        while i < new_size
            invariant
                start <= u64::MAX - PGSIZE,
                s0 == *old(self),
                k0 == old(kmem)@,
                kmem_ok(k0),
                forall|p: u64| #[trigger] s0.owns(k0, p) ==> k0.frames.contains_key(p),
                kmem.wf(),
                self.wf(kmem@),
                s0.apart(k0, *self, kmem@),
                i % PGSIZE == 0,
                start % PGSIZE == 0,
                start <= i,
                i == start || i as int / (PGSIZE as int) <= UPAGES,
                n0 == start as int / (PGSIZE as int),
                end == round_up(new_size as int) / (PGSIZE as int),
                perm == PTE_R | PTE_U | xperm,
                perm < 0x400,
                leaf(perm),
                old_size <= new_size,
                start == round_up(old_size as int),
                want is Some,
                want == s0.mem(k0).add_pages(n0, n0, end, perm),
                want == self.mem(kmem@).add_pages(n0, i as int / (PGSIZE as int), end, perm),
                forall|m: int|
                    UPAGES <= m ==> #[trigger] self.pte(kmem@, m) == s0.pte(k0, m),
            decreases new_size + PGSIZE - i,
        {
            let ghost n = i as int / (PGSIZE as int);
            let ghost k1 = kmem@;
            let ghost s1 = *self;
            proof {
                kmem.lemma_wf();
                assert(n < end);
                self.lemma_owns(k1);
            }
            match self.add_page(kmem, VA(i), perm) {
                Ok(_) => {
                    proof {
                        lemma_apart_trans(s0, k0, s1, k1, *self, kmem@);
                    }
                },
                Err(e) => {
                    let ghost k2 = kmem@;
                    proof {
                        kmem.lemma_wf();
                        lemma_apart_trans(s0, k0, s1, k1, *self, k2);
                        self.lemma_owns(k2);
                        if n >= MAXPAGES {
                            assert(n0 == n);
                        }
                    }
                    self.deallocate(kmem, i, start);
                    return Err(e);
                },
            }
            i = i + PGSIZE;
        }
        Ok(new_size)
    }

    /// Deallocates user pages to bring the process size from `old_size` to `new_size`.
    ///
    /// `old_size` and `new_size` need not be page-aligned, nor does `new_size` need to be less
    /// than `old_size`. `old_size` can be larger than the actual process size.
    ///
    /// Returns the new process size.
    pub fn deallocate(&mut self, kmem: &mut Kmem, old_size: u64, new_size: u64) -> (r: u64)
        requires
            old(kmem).wf(),
            old(self).wf(old(kmem)@),
            old_size + PGSIZE <= u64::MAX,
            old(self).mem(old(kmem)@).can_deallocate(old_size as int, new_size as int),
        ensures
            *final(self) == *old(self),
            final(kmem).wf(),
            final(self).wf(final(kmem)@),
            r == (if new_size >= old_size {
                old_size
            } else {
                new_size
            }),
            final(self).mem(final(kmem)@) == old(self).mem(old(kmem)@).deallocate(
                old_size as int,
                new_size as int,
            ),
            old(self).apart(old(kmem)@, *final(self), final(kmem)@),
            forall|m: int|
                UPAGES <= m ==> #[trigger] final(self).pte(final(kmem)@, m) == old(self).pte(
                    old(kmem)@,
                    m,
                ),
    {
        proof {
            kmem.lemma_wf();
            self.lemma_refl(kmem@);
        }
        if new_size >= old_size {
            return old_size;
        }
        let end = pg_round_up(old_size);
        let first = pg_round_up(new_size);
        if first < end {
            let npages = (end - first) / PGSIZE;
            self.unmap(kmem, VA(first), npages, true);
        }
        new_size
    }
}

impl UserMem {
    /// Removing the entries from page `n` on, `count` of them, and nothing else.
    pub open spec fn forget(self, n: int, count: nat) -> UserMem
        decreases count,
    {
        if count == 0 {
            self
        } else {
            UserMem { pages: self.pages.remove(n), ..self }.forget(n + 1, (count - 1) as nat)
        }
    }
}

impl Uvm {
    /// The pages of a process are whole.
    pub proof fn lemma_whole(self, k: KmemState)
        requires
            self.wf(k),
            kmem_ok(k),
        ensures
            self.mem(k).whole(),
    {
        let m = self.mem(k);
        assert forall|n: int| #[trigger]
            m.pages.contains_key(n) && n < UPAGES implies m.pages[n].data.len() == PGSIZE by {
            assert(self.maps(k, n));
        }
    }
}

} // verus!
