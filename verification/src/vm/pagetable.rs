//! Page tables: trees of frames with three levels.
//!
//! The entries of the root and of the tables at the level below it point to the tables of the next
//! level; the entries of the lowest tables are for pages. All of them live in page frames, so a
//! walk reads frames.
use vstd::prelude::*;
use crate::kalloc::{page_ok, zero_table, Content, Kmem, KmemState, NPTE};
use crate::riscv::{
    entry_of,
    index_of,
    law_pte_roundtrip,
    page_of,
    MAXVA,
    PGSIZE,
    PTE_R,
    PTE_U,
    PTE_V,
    PTE_W,
};
use crate::vm::{flag, leaf, PageTableEntry, VmError, PA, VA};

verus! {

/// A page table. It is not freed automatically: call `free_walk` to free page-table pages.
///
/// `mids` and `tabs` say which frames the tables below the root are in: those of the middle level
/// by their index in the root, the lowest ones by the upper 18 bits of the page number.
pub struct PageTable {
    pub root: u64,
    pub mids: Ghost<Map<int, u64>>,
    pub tabs: Ghost<Map<int, u64>>,
}

/// Which of the lowest tables `va` belongs to.
pub open spec fn tab_of(va: int) -> int {
    va / 0x20_0000
}

/// The entry that points to the table at `pa`.
pub open spec fn node_pte(pa: u64) -> u64 {
    entry_of(pa) | PTE_V
}

/// The entry of a table that points to `next`, if there is one.
pub open spec fn link(next: Map<int, u64>, i: int) -> u64 {
    if next.contains_key(i) {
        node_pte(next[i])
    } else {
        0
    }
}

proof fn lemma_node_pte(pa: u64)
    requires
        page_ok(pa),
    ensures
        page_of(node_pte(pa)) == pa,
        flag(node_pte(pa), PTE_V),
        !flag(0, PTE_V),
        !leaf(node_pte(pa)),
{
    law_pte_roundtrip(pa, PTE_V);
    assert((((pa >> 12) << 10) | 1) & 1 != 0) by (bit_vector);
    crate::vm::lemma_zero_invalid();
    assert((((pa >> 12) << 10) | 1) & (8u64 | 4u64 | 2u64) == 0) by (bit_vector);
}

impl PageTable {
    /// The table at `p` is in use for this page table alone.
    pub open spec fn node_ok(k: KmemState, p: u64) -> bool {
        &&& k.is_table(p)
        &&& k.frames[p].refs == 1
        &&& page_ok(p)
        &&& k.table(p).len() == NPTE
    }

    /// `p` is one of the frames that the page table is made of.
    pub open spec fn is_node(self, p: u64) -> bool {
        ||| p == self.root
        ||| exists|i: int| #[trigger] self.mids@.contains_key(i) && self.mids@[i] == p
        ||| exists|t: int| #[trigger] self.tabs@.contains_key(t) && self.tabs@[t] == p
    }

    /// The tables form a tree in the frames `k`.
    pub open spec fn wf(self, k: KmemState) -> bool {
        &&& Self::node_ok(k, self.root)
        &&& forall|i: int| #[trigger]
            self.mids@.contains_key(i) ==> 0 <= i < NPTE && Self::node_ok(k, self.mids@[i])
                && self.mids@[i] != self.root
        &&& forall|t: int| #[trigger]
            self.tabs@.contains_key(t) ==> 0 <= t < 0x2_0000 && self.mids@.contains_key(t / 512)
                && Self::node_ok(k, self.tabs@[t]) && self.tabs@[t] != self.root
        &&& forall|i: int, j: int|
            #![trigger self.mids@.contains_key(i), self.mids@.contains_key(j)]
            self.mids@.contains_key(i) && self.mids@.contains_key(j) && i != j ==> self.mids@[i]
                != self.mids@[j]
        &&& forall|i: int, j: int|
            #![trigger self.tabs@.contains_key(i), self.tabs@.contains_key(j)]
            self.tabs@.contains_key(i) && self.tabs@.contains_key(j) && i != j ==> self.tabs@[i]
                != self.tabs@[j]
        &&& forall|i: int, t: int|
            #![trigger self.mids@.contains_key(i), self.tabs@.contains_key(t)]
            self.mids@.contains_key(i) && self.tabs@.contains_key(t) ==> self.mids@[i]
                != self.tabs@[t]
        &&& forall|i: int|
            0 <= i < NPTE ==> #[trigger] k.table(self.root)[i] == link(self.mids@, i)
        &&& forall|i: int, j: int|
            #![trigger k.table(self.mids@[i])[j]]
            self.mids@.contains_key(i) && 0 <= j < NPTE ==> k.table(self.mids@[i])[j] == link(
                self.tabs@,
                512 * i + j,
            )
    }

    /// The lowest table for `va` exists.
    pub open spec fn has_tab(self, va: int) -> bool {
        self.tabs@.contains_key(tab_of(va))
    }

    /// The entry for `va`, 0 if there is none.
    pub open spec fn entry(self, k: KmemState, va: int) -> u64 {
        if self.has_tab(va) {
            k.table(self.tabs@[tab_of(va)])[index_of(0, va)]
        } else {
            0
        }
    }

    /// How many tables are missing on the way to the entry for `va`.
    pub open spec fn missing(self, va: int) -> nat {
        if !self.mids@.contains_key(tab_of(va) / 512) {
            2
        } else if !self.has_tab(va) {
            1
        } else {
            0
        }
    }

    /// Creates an empty page table.
    pub fn try_new(kmem: &mut Kmem) -> (r: Result<Self, VmError>)
        requires
            old(kmem).wf(),
        ensures
            final(kmem).wf(),
            r is Ok <==> old(kmem)@.free.len() > 0,
            r matches Err(e) ==> e == VmError::Alloc && final(kmem)@ == old(kmem)@,
            r matches Ok(pt) ==> {
                &&& pt.wf(final(kmem)@)
                &&& pt.mids@ == Map::<int, u64>::empty()
                &&& pt.tabs@ == Map::<int, u64>::empty()
                &&& old(kmem)@.free.contains(pt.root)
                &&& final(kmem)@ == old(kmem)@.allocated(pt.root, Content::Table(zero_table()))
            },
    {
        match kmem.allocate_table() {
            Some(root) => Ok(
                PageTable { root, mids: Ghost(Map::empty()), tabs: Ghost(Map::empty()) },
            ),
            None => Err(VmError::Alloc),
        }
    }

    /// Returns the physical address of this page table.
    pub fn as_pa(&self) -> (r: PA)
        ensures
            r.0 == self.root,
    {
        PA(self.root)
    }

    /// Returns the frame of the lowest table for `va`, or an error if a table on the way is
    /// missing.
    fn walk_raw(&self, kmem: &Kmem, va: VA) -> (r: Result<u64, VmError>)
        requires
            kmem.wf(),
            self.wf(kmem@),
        ensures
            match r {
                Ok(t) => va.0 < MAXVA && self.has_tab(va.0 as int) && t == self.tabs@[tab_of(
                    va.0 as int,
                )],
                Err(VmError::InvalidAddress) => va.0 >= MAXVA,
                Err(e) => e == VmError::InvalidPage && va.0 < MAXVA && !self.has_tab(va.0 as int),
            },
    {
        if va.0 >= MAXVA {
            return Err(VmError::InvalidAddress);
        }
        let ghost t = tab_of(va.0 as int);
        let i2 = va.px(2) as usize;
        let i1 = va.px(1) as usize;
        proof {
            assert(i2 == t / 512 && i1 == t % 512);
            crate::vm::lemma_zero_invalid();
        }
        let pte2 = PageTableEntry(kmem.pte(self.root, i2));
        assert(pte2.0 == link(self.mids@, i2 as int));
        if !pte2.is_v() {
            assert(self.has_tab(va.0 as int) ==> self.mids@.contains_key(t / 512));
            proof {
                if self.mids@.contains_key(i2 as int) {
                    lemma_node_pte(self.mids@[i2 as int]);
                }
            }
            return Err(VmError::InvalidPage);
        }
        proof {
            lemma_node_pte(self.mids@[i2 as int]);
        }
        let mid = pte2.as_pa().0;
        let pte1 = PageTableEntry(kmem.pte(mid, i1));
        assert(pte1.0 == kmem@.table(self.mids@[i2 as int])[i1 as int]);
        assert(512 * i2 + i1 == t);
        if !pte1.is_v() {
            proof {
                if self.tabs@.contains_key(t) {
                    lemma_node_pte(self.tabs@[t]);
                }
            }
            return Err(VmError::InvalidPage);
        }
        proof {
            lemma_node_pte(self.tabs@[t]);
        }
        Ok(pte1.as_pa().0)
    }

    /// Returns the PTE in page table that corresponds to virtual address `va`.
    ///
    /// Returns an error if any required page-table page doesn't exist.
    pub fn walk(&self, kmem: &Kmem, va: VA) -> (r: Result<PageTableEntry, VmError>)
        requires
            kmem.wf(),
            self.wf(kmem@),
        ensures
            r is Ok <==> va.0 < MAXVA && self.has_tab(va.0 as int),
            r matches Ok(pte) ==> pte.0 == self.entry(kmem@, va.0 as int),
            r matches Err(e) ==> e == (if va.0 >= MAXVA {
                VmError::InvalidAddress
            } else {
                VmError::InvalidPage
            }),
    {
        match self.walk_raw(kmem, va) {
            Ok(tab) => Ok(PageTableEntry(kmem.pte(tab, va.px(0) as usize))),
            Err(e) => Err(e),
        }
    }

    /// Looks up a virtual address, return the physical address, or Error if not mapped.
    ///
    /// Can only be used to look up user pages.
    pub fn walk_addr(&self, kmem: &Kmem, va: VA) -> (r: Result<PA, VmError>)
        requires
            kmem.wf(),
            self.wf(kmem@),
        ensures
            ({
                let pte = self.entry(kmem@, va.0 as int);
                &&& r is Ok <==> va.0 < MAXVA && self.has_tab(va.0 as int) && flag(pte, PTE_V)
                    && flag(pte, PTE_U)
                &&& r matches Ok(pa) ==> pa.0 == page_of(pte)
                &&& r matches Err(e) ==> e == (if va.0 >= MAXVA {
                    VmError::InvalidAddress
                } else if !self.has_tab(va.0 as int) {
                    VmError::InvalidPage
                } else {
                    VmError::InvalidPte
                })
            }),
    {
        if va.0 > MAXVA {
            return Err(VmError::InvalidAddress);
        }
        match self.walk(kmem, va) {
            Ok(pte) => {
                if !pte.is_v() || !pte.is_u() {
                    return Err(VmError::InvalidPte);
                }
                Ok(pte.as_pa())
            },
            Err(e) => Err(e),
        }
    }
}

impl PageTable {
    /// From `self` in `k0` to `new` in `k1` the page table only got new tables, which came from the
    /// free frames, and every frame that was in use but for the page table's own is as it was.
    pub open spec fn grew(self, k0: KmemState, new: PageTable, k1: KmemState) -> bool {
        &&& new.root == self.root
        &&& forall|i: int| #[trigger]
            self.mids@.contains_key(i) ==> new.mids@.contains_key(i) && new.mids@[i] == self.mids@[i]
        &&& forall|t: int| #[trigger]
            self.tabs@.contains_key(t) ==> new.tabs@.contains_key(t) && new.tabs@[t] == self.tabs@[t]
        &&& forall|p: u64| #[trigger] k1.free.contains(p) ==> k0.free.contains(p)
        &&& forall|p: u64| #[trigger]
            k0.free.contains(p) ==> k1.free.contains(p) || new.is_node(p)
        &&& forall|p: u64|
            #![trigger k1.frames.contains_key(p)]
            #![trigger k0.frames.contains_key(p)]
            #![trigger k1.frames[p]]
            k0.frames.contains_key(p) ==> k1.frames.contains_key(p) && (!self.is_node(p)
                ==> k1.frames[p] == k0.frames[p])
        &&& forall|p: u64| #[trigger]
            k1.frames.contains_key(p) && !k0.frames.contains_key(p) ==> k0.free.contains(p)
                && new.is_node(p)
        &&& forall|p: u64| #[trigger]
            new.is_node(p) ==> self.is_node(p) || (k0.free.contains(p) && !k1.free.contains(p))
    }

    /// Like `grew`, and every entry is as it was.
    pub open spec fn grown(self, k0: KmemState, new: PageTable, k1: KmemState) -> bool {
        &&& self.grew(k0, new, k1)
        &&& forall|va: int| 0 <= va ==> #[trigger] new.entry(k1, va) == self.entry(k0, va)
    }

    pub proof fn lemma_grew_trans(
        self,
        k0: KmemState,
        mid: PageTable,
        k1: KmemState,
        new: PageTable,
        k2: KmemState,
    )
        requires
            self.grew(k0, mid, k1),
            mid.grew(k1, new, k2),
            forall|p: u64| #[trigger] k0.free.contains(p) ==> !k0.frames.contains_key(p),
            forall|p: u64| mid.is_node(p) ==> #[trigger] k1.frames.contains_key(p),
        ensures
            self.grew(k0, new, k2),
    {
        assert forall|p: u64| k0.frames.contains_key(p) && !self.is_node(p) implies #[trigger] k2.frames[p]
            == k0.frames[p] by {
            assert(k1.frames[p] == k0.frames[p]);
            if mid.is_node(p) {
                assert(k0.free.contains(p));
            }
            assert(!mid.is_node(p));
        }
        assert forall|p: u64| #[trigger] new.is_node(p) implies self.is_node(p) || (k0.free.contains(
            p,
        ) && !k2.free.contains(p)) by {
            if mid.is_node(p) {
                if !self.is_node(p) {
                    assert(k0.free.contains(p) && !k1.free.contains(p));
                    assert(!k2.free.contains(p));
                }
            } else {
                assert(k1.free.contains(p));
            }
        }
        assert forall|p: u64| #[trigger] mid.is_node(p) implies new.is_node(p) by {
            if p != mid.root {
                if exists|i: int| #[trigger] mid.mids@.contains_key(i) && mid.mids@[i] == p {
                    let i = choose|i: int| #[trigger] mid.mids@.contains_key(i) && mid.mids@[i] == p;
                    assert(new.mids@.contains_key(i));
                } else {
                    let t = choose|t: int| #[trigger] mid.tabs@.contains_key(t) && mid.tabs@[t] == p;
                    assert(new.tabs@.contains_key(t));
                }
            }
        }
        assert forall|p: u64| #[trigger] k2.frames.contains_key(p) && !k0.frames.contains_key(p) implies k0.free.contains(
            p,
        ) && new.is_node(p) by {
            if k1.frames.contains_key(p) {
                assert(mid.is_node(p));
            }
        }
    }

    /// Adds a table below entry `i` of the root, which points nowhere.
    fn add_mid(&mut self, kmem: &mut Kmem, i: usize) -> (r: Result<(), VmError>)
        requires
            old(kmem).wf(),
            old(self).wf(old(kmem)@),
            i < NPTE,
            !old(self).mids@.contains_key(i as int),
        ensures
            final(kmem).wf(),
            final(self).wf(final(kmem)@),
            r is Ok <==> old(kmem)@.free.len() > 0,
            r matches Err(e) ==> e == VmError::Alloc && *final(self) == *old(self)
                && final(kmem)@ == old(kmem)@,
            r is Ok ==> {
                &&& final(self).mids@.dom() == old(self).mids@.dom().insert(i as int)
                &&& final(self).tabs@ == old(self).tabs@
                &&& final(kmem)@.free.len() == old(kmem)@.free.len() - 1
            },
            old(self).grown(old(kmem)@, *final(self), final(kmem)@),
    {
        let ghost k0 = kmem@;
        let ghost s0 = *self;
        proof {
            kmem.lemma_wf();
        }
        match kmem.allocate_table() {
            None => Err(VmError::Alloc),
            Some(p) => {
                let pte = PA(p).as_pte().0 | PTE_V;
                kmem.set_pte(self.root, i, pte);
                let ghost k1 = kmem@;
                proof {
                    self.mids@ = self.mids@.insert(i as int, p);
                    assert(!k0.frames.contains_key(p));
                    assert(pte == node_pte(p));
                    assert(!s0.is_node(p)) by {
                        if s0.is_node(p) {
                            assert(k0.frames.contains_key(p));
                        }
                    }
                    assert(self.is_node(p)) by {
                        assert(self.mids@.contains_key(i as int));
                    }
                    assert forall|q: u64| q != p && q != s0.root implies k1.frames.contains_key(q)
                        == k0.frames.contains_key(q) && k1.frames[q] == k0.frames[q] by {}
                    assert forall|t: int| #[trigger] self.tabs@.contains_key(t) implies self.mids@.contains_key(
                        t / 512,
                    ) && Self::node_ok(k1, self.tabs@[t]) && self.tabs@[t] != self.root by {
                        assert(s0.mids@.contains_key(t / 512));
                    }
                    assert forall|x: int, j: int|
                        #![trigger k1.table(self.mids@[x])[j]]
                        self.mids@.contains_key(x) && 0 <= j < NPTE implies k1.table(self.mids@[x])[j]
                        == link(self.tabs@, 512 * x + j) by {
                        if x == i {
                            assert((512 * x + j) / 512 == x);
                            assert(!s0.tabs@.contains_key(512 * x + j));
                        } else {
                            assert(s0.mids@.contains_key(x));
                            assert(k1.table(s0.mids@[x]) == k0.table(s0.mids@[x]));
                            assert(k0.table(s0.mids@[x])[j] == link(s0.tabs@, 512 * x + j));
                        }
                    }
                    assert(self.wf(k1));
                    assert forall|va: int| 0 <= va implies #[trigger] self.entry(k1, va) == s0.entry(
                        k0,
                        va,
                    ) by {
                        if s0.has_tab(va) {
                            assert(s0.tabs@[tab_of(va)] != s0.root);
                            assert(k0.frames.contains_key(s0.tabs@[tab_of(va)]));
                        }
                    }
                    assert forall|q: u64| #[trigger] self.is_node(q) implies s0.is_node(q) || (
                    k0.free.contains(q) && !k1.free.contains(q)) by {
                        if q != p && q != self.root {
                            if exists|x: int| #[trigger] self.mids@.contains_key(x) && self.mids@[x] == q {
                                let x = choose|x: int| #[trigger]
                                    self.mids@.contains_key(x) && self.mids@[x] == q;
                                assert(s0.mids@.contains_key(x));
                            }
                        }
                    }
                    assert(self.mids@.dom() =~= s0.mids@.dom().insert(i as int));
                }
                Ok(())
            },
        }
    }

    /// Adds the lowest table with number `t`, which is missing; the table above it exists.
    fn add_tab(&mut self, kmem: &mut Kmem, t: usize) -> (r: Result<(), VmError>)
        requires
            old(kmem).wf(),
            old(self).wf(old(kmem)@),
            old(self).mids@.contains_key(t as int / 512),
            !old(self).tabs@.contains_key(t as int),
            t < 0x2_0000,
        ensures
            final(kmem).wf(),
            final(self).wf(final(kmem)@),
            r is Ok <==> old(kmem)@.free.len() > 0,
            r matches Err(e) ==> e == VmError::Alloc && *final(self) == *old(self)
                && final(kmem)@ == old(kmem)@,
            r is Ok ==> {
                &&& final(self).tabs@.dom() == old(self).tabs@.dom().insert(t as int)
                &&& final(self).mids@ == old(self).mids@
                &&& final(kmem)@.free.len() == old(kmem)@.free.len() - 1
            },
            old(self).grown(old(kmem)@, *final(self), final(kmem)@),
    {
        let ghost k0 = kmem@;
        let ghost s0 = *self;
        proof {
            kmem.lemma_wf();
            lemma_node_pte(self.mids@[t as int / 512]);
            assert(k0.table(self.root)[t as int / 512] == link(self.mids@, t as int / 512));
        }
        let i: usize = t / 512;
        let j: usize = t % 512;
        let mid = PageTableEntry(kmem.pte(self.root, i)).as_pa().0;
        match kmem.allocate_table() {
            None => Err(VmError::Alloc),
            Some(p) => {
                let pte = PA(p).as_pte().0 | PTE_V;
                kmem.set_pte(mid, j, pte);
                let ghost k1 = kmem@;
                proof {
                    self.tabs@ = self.tabs@.insert(t as int, p);
                    assert(!k0.frames.contains_key(p));
                    assert(pte == node_pte(p));
                    assert(mid == s0.mids@[i as int]);
                    assert(!s0.is_node(p)) by {
                        if s0.is_node(p) {
                            assert(k0.frames.contains_key(p));
                        }
                    }
                    assert(self.is_node(p)) by {
                        assert(self.tabs@.contains_key(t as int));
                    }
                    assert(s0.is_node(mid)) by {
                        assert(s0.mids@.contains_key(i as int));
                    }
                    assert forall|q: u64| q != p && q != mid implies k1.frames.contains_key(q)
                        == k0.frames.contains_key(q) && k1.frames[q] == k0.frames[q] by {}
                    assert forall|x: int| #[trigger] self.mids@.contains_key(x) implies Self::node_ok(
                        k1,
                        self.mids@[x],
                    ) by {
                        assert(s0.mids@.contains_key(x));
                    }
                    assert forall|x: int| #[trigger] self.tabs@.contains_key(x) implies 0 <= x
                        < 0x2_0000 && self.mids@.contains_key(x / 512) && Self::node_ok(k1, self.tabs@[x])
                        && self.tabs@[x] != self.root by {
                        if x != t {
                            assert(s0.tabs@.contains_key(x));
                        }
                    }
                    assert forall|x: int, y: int|
                        #![trigger k1.table(self.mids@[x])[y]]
                        self.mids@.contains_key(x) && 0 <= y < NPTE implies k1.table(self.mids@[x])[y]
                        == link(self.tabs@, 512 * x + y) by {
                        assert(s0.mids@.contains_key(x));
                        assert(k0.table(s0.mids@[x])[y] == link(s0.tabs@, 512 * x + y));
                        if x == i {
                            assert(y == j <==> 512 * x + y == t);
                        } else {
                            assert(s0.mids@[x] != mid);
                            assert(512 * x + y != t);
                        }
                    }
                    assert forall|x: int| 0 <= x < NPTE implies #[trigger] k1.table(self.root)[x] == link(
                        self.mids@,
                        x,
                    ) by {
                        assert(k0.table(s0.root)[x] == link(s0.mids@, x));
                        assert(k1.table(s0.root) == k0.table(s0.root));
                    }
                    assert(self.wf(k1));
                    assert forall|va: int| 0 <= va implies #[trigger] self.entry(k1, va) == s0.entry(
                        k0,
                        va,
                    ) by {
                        if s0.has_tab(va) {
                            assert(s0.tabs@[tab_of(va)] != mid);
                            assert(k0.frames.contains_key(s0.tabs@[tab_of(va)]));
                        } else if tab_of(va) == t {
                            assert(k1.table(p) == zero_table());
                        }
                    }
                    assert forall|q: u64| #[trigger] self.is_node(q) implies s0.is_node(q) || (
                    k0.free.contains(q) && !k1.free.contains(q)) by {
                        if q != p && q != self.root {
                            if exists|x: int| #[trigger] self.tabs@.contains_key(x) && self.tabs@[x] == q {
                                let x = choose|x: int| #[trigger]
                                    self.tabs@.contains_key(x) && self.tabs@[x] == q;
                                assert(s0.tabs@.contains_key(x));
                            }
                        }
                    }
                    assert(self.tabs@.dom() =~= s0.tabs@.dom().insert(t as int));
                }
                Ok(())
            },
        }
    }
}

/// Which tables a page table has below its root.
#[verifier::ext_equal]
pub struct Shape {
    pub mids: Set<int>,
    pub tabs: Set<int>,
}

impl Shape {
    /// The tables after those on the way to `va` were added as far as the `free` frames reach, the
    /// frames that are left, and whether the way is complete.
    pub open spec fn grow(self, va: int, free: nat) -> (Shape, nat, bool) {
        let t = tab_of(va);
        if self.mids.contains(t / 512) {
            if self.tabs.contains(t) {
                (self, free, true)
            } else if free == 0 {
                (self, free, false)
            } else {
                (Shape { tabs: self.tabs.insert(t), ..self }, (free - 1) as nat, true)
            }
        } else if free == 0 {
            (self, free, false)
        } else if free == 1 {
            (Shape { mids: self.mids.insert(t / 512), ..self }, 0, false)
        } else {
            (
                Shape { mids: self.mids.insert(t / 512), tabs: self.tabs.insert(t) },
                (free - 2) as nat,
                true,
            )
        }
    }

    /// Mapping `n` pages from `va` on: the tables and free frames afterwards, how many pages were
    /// mapped, and the result.
    pub open spec fn map_run(self, va: int, n: nat, free: nat) -> (
        Shape,
        nat,
        nat,
        Result<(), VmError>,
    )
        decreases n,
    {
        if n == 0 {
            (self, free, 0, Ok(()))
        } else if va >= MAXVA {
            (self, free, 0, Err(VmError::InvalidAddress))
        } else {
            let (s, f, ok) = self.grow(va, free);
            if !ok {
                (s, f, 0, Err(VmError::Alloc))
            } else {
                let (s, f, m, r) = s.map_run(va + PGSIZE, (n - 1) as nat, f);
                (s, f, m + 1, r)
            }
        }
    }
}

impl PageTable {
    /// Which tables there are below the root.
    pub open spec fn shape(self) -> Shape {
        Shape { mids: self.mids@.dom(), tabs: self.tabs@.dom() }
    }

    pub proof fn lemma_nodes_live(self, k: KmemState)
        requires
            self.wf(k),
        ensures
            forall|p: u64| #[trigger] self.is_node(p) ==> k.is_table(p) && k.frames[p].refs == 1,
    {
    }

    /// Returns the frame of the lowest table for `va`, creating any required page-table pages.
    fn walk_mut(&mut self, kmem: &mut Kmem, va: VA) -> (r: Result<u64, VmError>)
        requires
            old(kmem).wf(),
            old(self).wf(old(kmem)@),
        ensures
            final(kmem).wf(),
            final(self).wf(final(kmem)@),
            old(self).grown(old(kmem)@, *final(self), final(kmem)@),
            va.0 >= MAXVA ==> r == Err::<u64, VmError>(VmError::InvalidAddress) && *final(self)
                == *old(self) && final(kmem)@ == old(kmem)@,
            va.0 < MAXVA ==> {
                let (s, f, ok) = old(self).shape().grow(va.0 as int, old(kmem)@.free.len());
                &&& final(self).shape() == s
                &&& final(kmem)@.free.len() == f
                &&& r is Ok <==> ok
                &&& r matches Err(e) ==> e == VmError::Alloc
                &&& r matches Ok(tab) ==> final(self).has_tab(va.0 as int) && tab
                    == final(self).tabs@[tab_of(va.0 as int)]
            },
    {
        let ghost s0 = *self;
        let ghost k0 = kmem@;
        proof {
            kmem.lemma_wf();
        }
        match self.walk_raw(kmem, va) {
            Ok(tab) => Ok(tab),
            Err(VmError::InvalidAddress) => Err(VmError::InvalidAddress),
            Err(_) => {
                let i2 = va.px(2) as usize;
                let i1 = va.px(1) as usize;
                let t: usize = 512 * i2 + i1;
                assert(t == tab_of(va.0 as int));
                proof {
                    if self.mids@.contains_key(i2 as int) {
                        lemma_node_pte(self.mids@[i2 as int]);
                    }
                    assert(k0.table(self.root)[i2 as int] == link(self.mids@, i2 as int));
                    crate::vm::lemma_zero_invalid();
                }
                if !PageTableEntry(kmem.pte(self.root, i2)).is_v() {
                    match self.add_mid(kmem, i2) {
                        Ok(()) => {},
                        Err(e) => {
                            return Err(e);
                        },
                    }
                }
                let ghost s1 = *self;
                let ghost k1 = kmem@;
                assert(s1.mids@.dom().contains(t as int / 512));
                assert(!s1.tabs@.contains_key(t as int)) by {
                    assert(s1.tabs@ == s0.tabs@);
                }
                match self.add_tab(kmem, t) {
                    Ok(()) => {},
                    Err(e) => {
                        return Err(e);
                    },
                }
                proof {
                    s1.lemma_nodes_live(k1);
                    s0.lemma_grew_trans(k0, s1, k1, *self, kmem@);
                    assert forall|a: int| 0 <= a implies #[trigger] self.entry(kmem@, a) == s0.entry(
                        k0,
                        a,
                    ) by {
                        assert(s1.entry(k1, a) == s0.entry(k0, a));
                    }
                    assert(self.tabs@.dom().contains(t as int));
                }
                let r = self.walk_raw(kmem, va);
                r
            },
        }
    }

    /// Sets the entry for `va`, whose table exists.
    pub fn set(&self, kmem: &mut Kmem, va: VA, pte: PageTableEntry)
        requires
            old(kmem).wf(),
            self.wf(old(kmem)@),
            va.0 < MAXVA,
            self.has_tab(va.0 as int),
        ensures
            final(kmem).wf(),
            self.wf(final(kmem)@),
            self.grew(old(kmem)@, *self, final(kmem)@),
            final(kmem)@.free == old(kmem)@.free,
            forall|a: int|
                0 <= a ==> #[trigger] self.entry(final(kmem)@, a) == (if a / (PGSIZE as int)
                    == va.0 as int / (PGSIZE as int) {
                    pte.0
                } else {
                    self.entry(old(kmem)@, a)
                }),
    {
        let ghost k0 = kmem@;
        let ghost t = tab_of(va.0 as int);
        let tab = self.walk_raw(kmem, va).unwrap();
        kmem.set_pte(tab, va.px(0) as usize, pte.0);
        let ghost k1 = kmem@;
        proof {
            assert(self.is_node(tab)) by {
                assert(self.tabs@.contains_key(t));
            }
            assert forall|i: int| #[trigger] self.mids@.contains_key(i) implies k1.frames[self.mids@[i]]
                == k0.frames[self.mids@[i]] by {
                assert(self.mids@[i] != tab);
            }
            assert forall|i: int, j: int|
                #![trigger k1.table(self.mids@[i])[j]]
                self.mids@.contains_key(i) && 0 <= j < NPTE implies k1.table(self.mids@[i])[j] == link(
                self.tabs@,
                512 * i + j,
            ) by {
                assert(k0.table(self.mids@[i])[j] == link(self.tabs@, 512 * i + j));
            }
            assert forall|i: int| 0 <= i < NPTE implies #[trigger] k1.table(self.root)[i] == link(
                self.mids@,
                i,
            ) by {
                assert(k0.table(self.root)[i] == link(self.mids@, i));
            }
            assert(self.wf(k1));
            assert forall|a: int| 0 <= a implies #[trigger] self.entry(k1, a) == (if a / (PGSIZE as int)
                == va.0 as int / (PGSIZE as int) {
                pte.0
            } else {
                self.entry(k0, a)
            }) by {
                let v = va.0 as int;
                assert(tab_of(a) == a / 4096 / 512 && index_of(0, a) == a / 4096 % 512);
                assert(tab_of(v) == v / 4096 / 512 && index_of(0, v) == v / 4096 % 512);
                if self.has_tab(a) && tab_of(a) != t {
                    assert(self.tabs@[tab_of(a)] != tab);
                }
            }
        }
    }
}

impl PageTable {
    /// Creates PTEs for virtual addresses starting at `va` that refer to physical addresses
    /// starting at `pa`, applying the permissions given in `perm`.
    ///
    /// `va` and `size` must be page-aligned, and the pages must not be mapped. On an error the
    /// pages before the one that failed are mapped.
    pub fn map_pages(&mut self, kmem: &mut Kmem, va: VA, pa: PA, size: u64, perm: u64) -> (r: Result<
        (),
        VmError,
    >)
        requires
            old(kmem).wf(),
            old(self).wf(old(kmem)@),
            va.0 % PGSIZE == 0,
            size % PGSIZE == 0,
            size != 0,
            va.0 + size <= u64::MAX,
            pa.0 + size <= u64::MAX,
            forall|a: int|
                va.0 <= a < va.0 + size ==> !flag(#[trigger] old(self).entry(old(kmem)@, a), PTE_V),
        ensures
            final(kmem).wf(),
            final(self).wf(final(kmem)@),
            old(self).grew(old(kmem)@, *final(self), final(kmem)@),
            ({
                let (s, f, m, result) = old(self).shape().map_run(
                    va.0 as int,
                    (size / PGSIZE) as nat,
                    old(kmem)@.free.len(),
                );
                &&& r == result
                &&& final(self).shape() == s
                &&& final(kmem)@.free.len() == f
                &&& m <= size / PGSIZE
                &&& r is Ok ==> m == size / PGSIZE
                &&& forall|a: int|
                    0 <= a ==> #[trigger] final(self).entry(final(kmem)@, a) == (if va.0 <= a < va.0
                        + m * PGSIZE {
                        entry_of((pa.0 + (a - va.0) / (PGSIZE as int) * PGSIZE) as u64) | perm
                            | PTE_V
                    } else {
                        old(self).entry(old(kmem)@, a)
                    })
            }),
    {
        let ghost s0 = *self;
        let ghost k0 = kmem@;
        let ghost n = (size / PGSIZE) as nat;
        let ghost want = s0.shape().map_run(va.0 as int, n, k0.free.len());
        let last = va.0 + (size - PGSIZE);
        let mut a: u64 = va.0;
        let mut p: u64 = pa.0;
        let ghost mut i: nat = 0;
        proof {
            kmem.lemma_wf();
            s0.lemma_nodes_live(k0);
        }
        loop
            invariant
                kmem.wf(),
                self.wf(kmem@),
                s0.grew(k0, *self, kmem@),
                s0 == *old(self),
                k0 == old(kmem)@,
                va.0 % PGSIZE == 0,
                size % PGSIZE == 0,
                va.0 + size <= u64::MAX,
                pa.0 + size <= u64::MAX,
                n == size / PGSIZE,
                i < n,
                a == va.0 + i * PGSIZE,
                p == pa.0 + i * PGSIZE,
                last == va.0 + size - PGSIZE,
                forall|x: u64| #[trigger] k0.free.contains(x) ==> !k0.frames.contains_key(x),
                forall|x: int|
                    va.0 <= x < va.0 + size ==> !flag(#[trigger] s0.entry(k0, x), PTE_V),
                want == s0.shape().map_run(va.0 as int, n, k0.free.len()),
                ({
                    let (s, f, m, r) = self.shape().map_run(
                        a as int,
                        (n - i) as nat,
                        kmem@.free.len(),
                    );
                    want == (s, f, m + i, r)
                }),
                forall|x: int|
                    0 <= x ==> #[trigger] self.entry(kmem@, x) == (if va.0 <= x < va.0 + i * PGSIZE {
                        entry_of((pa.0 + (x - va.0) / (PGSIZE as int) * PGSIZE) as u64) | perm
                            | PTE_V
                    } else {
                        s0.entry(k0, x)
                    }),
            decreases n - i,
        {
            let ghost s1 = *self;
            let ghost k1 = kmem@;
            proof {
                kmem.lemma_wf();
                s1.lemma_nodes_live(k1);
                assert(self.shape().map_run(a as int, (n - i) as nat, kmem@.free.len()).2 <= n - i) by {
                    lemma_map_run(self.shape(), a as int, (n - i) as nat, kmem@.free.len());
                }
            }
            match self.walk_mut(kmem, VA(a)) {
                Ok(_) => {},
                Err(e) => {
                    proof {
                        s0.lemma_grew_trans(k0, s1, k1, *self, kmem@);
                    }
                    return Err(e);
                },
            }
            let ghost s2 = *self;
            let ghost k2 = kmem@;
            self.set(kmem, VA(a), PageTableEntry(PA(p).as_pte().0 | perm | PTE_V));
            proof {
                s2.lemma_nodes_live(k2);
                s0.lemma_grew_trans(k0, s1, k1, s2, k2);
                s0.lemma_grew_trans(k0, s2, k2, *self, kmem@);
                assert forall|x: int| 0 <= x implies #[trigger] self.entry(kmem@, x) == (if va.0 <= x
                    < va.0 + (i + 1) * PGSIZE {
                    entry_of((pa.0 + (x - va.0) / (PGSIZE as int) * PGSIZE) as u64) | perm | PTE_V
                } else {
                    s0.entry(k0, x)
                }) by {
                    assert(s2.entry(k2, x) == s1.entry(k1, x));
                    if a <= x < a + PGSIZE {
                        assert(x / (PGSIZE as int) == a as int / (PGSIZE as int));
                        assert((x - va.0) / (PGSIZE as int) == i);
                    } else {
                        assert(x / (PGSIZE as int) != a as int / (PGSIZE as int));
                    }
                }
                i = i + 1;
            }
            if a == last {
                proof {
                    assert(i == n);
                    assert(s2.shape().map_run(a + PGSIZE, 0, k2.free.len()) == (
                        s2.shape(),
                        k2.free.len(),
                        0nat,
                        Ok::<(), VmError>(()),
                    ));
                    assert(want == (s2.shape(), k2.free.len(), n, Ok::<(), VmError>(())));
                }
                return Ok(());
            }
            a = a + PGSIZE;
            p = p + PGSIZE;
        }
    }

    /// Change the write permission of the user page containing `va`.
    ///
    /// `va` must be a valid, page-aligned user mapping.
    pub fn set_page_writeable(&mut self, kmem: &mut Kmem, va: VA, writable: bool) -> (r: Result<
        (),
        VmError,
    >)
        requires
            old(kmem).wf(),
            old(self).wf(old(kmem)@),
        ensures
            final(kmem).wf(),
            final(self).wf(final(kmem)@),
            *final(self) == *old(self),
            old(self).grew(old(kmem)@, *final(self), final(kmem)@),
            final(kmem)@.free == old(kmem)@.free,
            ({
                let pte = old(self).entry(old(kmem)@, va.0 as int);
                &&& r == (if va.0 >= MAXVA || va.0 % PGSIZE != 0 {
                    Err::<(), VmError>(VmError::InvalidAddress)
                } else if !old(self).has_tab(va.0 as int) {
                    Err(VmError::InvalidPage)
                } else if !flag(pte, PTE_V) || !flag(pte, PTE_U) {
                    Err(VmError::InvalidPte)
                } else {
                    Ok(())
                })
                &&& r is Err ==> final(kmem)@ == old(kmem)@
                &&& r is Ok ==> forall|a: int|
                    0 <= a ==> #[trigger] final(self).entry(final(kmem)@, a) == (if a / (
                    PGSIZE as int) == va.0 as int / (PGSIZE as int) {
                        if writable {
                            pte | PTE_W
                        } else {
                            pte & !PTE_W
                        }
                    } else {
                        old(self).entry(old(kmem)@, a)
                    })
            }),
    {
        if va.0 >= MAXVA || va.0 % PGSIZE != 0 {
            return Err(VmError::InvalidAddress);
        }
        let mut pte = match self.walk(kmem, va) {
            Ok(pte) => pte,
            Err(e) => {
                return Err(e);
            },
        };
        if !pte.is_v() || !pte.is_u() {
            return Err(VmError::InvalidPte);
        }
        pte.set_w(writable);
        self.set(kmem, va, pte);
        Ok(())
    }

    /// Strip user read/write from the page at `va`, leaving execute intact.
    ///
    /// Used as a null-pointer guard: a program whose entry is at address 0 can
    /// still fetch instructions, but loads and stores to page 0 fault.
    pub fn revoke_rw(&mut self, kmem: &mut Kmem, va: VA) -> (r: Result<(), VmError>)
        requires
            old(kmem).wf(),
            old(self).wf(old(kmem)@),
        ensures
            final(kmem).wf(),
            final(self).wf(final(kmem)@),
            *final(self) == *old(self),
            old(self).grew(old(kmem)@, *final(self), final(kmem)@),
            final(kmem)@.free == old(kmem)@.free,
            ({
                let pte = old(self).entry(old(kmem)@, va.0 as int);
                &&& r == (if va.0 >= MAXVA {
                    Err::<(), VmError>(VmError::InvalidAddress)
                } else if !old(self).has_tab(va.0 as int) {
                    Err(VmError::InvalidPage)
                } else if !flag(pte, PTE_V) {
                    Err(VmError::InvalidPte)
                } else {
                    Ok(())
                })
                &&& r is Err ==> final(kmem)@ == old(kmem)@
                &&& r is Ok ==> forall|a: int|
                    0 <= a ==> #[trigger] final(self).entry(final(kmem)@, a) == (if a / (
                    PGSIZE as int) == va.0 as int / (PGSIZE as int) {
                        pte & !(PTE_R | PTE_W)
                    } else {
                        old(self).entry(old(kmem)@, a)
                    })
            }),
    {
        let pte = match self.walk(kmem, va) {
            Ok(pte) => pte,
            Err(e) => {
                return Err(e);
            },
        };
        if !pte.is_v() {
            return Err(VmError::InvalidPte);
        }
        self.set(kmem, va, PageTableEntry(pte.0 & !(PTE_R | PTE_W)));
        Ok(())
    }

    /// `p` is one of the tables below the first `i` entries of the root, or below the first `j`
    /// of the next one.
    pub open spec fn below(self, i: int, j: int, p: u64) -> bool {
        ||| exists|m: int| #[trigger] self.mids@.contains_key(m) && m < i && self.mids@[m] == p
        ||| exists|t: int| #[trigger] self.tabs@.contains_key(t) && t < 512 * i + j && self.tabs@[t] == p
    }

    /// From `k0` to `k1` exactly the tables `below(i, j)` were freed.
    pub open spec fn freed(self, k0: KmemState, k1: KmemState, i: int, j: int) -> bool {
        &&& forall|p: u64|
            #![trigger k1.frames.contains_key(p)]
            k1.frames.contains_key(p) == (k0.frames.contains_key(p) && !self.below(i, j, p))
        &&& forall|p: u64| #[trigger] k1.frames.contains_key(p) ==> k1.frames[p] == k0.frames[p]
        &&& forall|p: u64| #[trigger]
            k1.free.contains(p) == (k0.free.contains(p) || self.below(i, j, p))
    }

    /// Frees page-table pages.
    /// All leaf mapping must already have been removed.
    pub fn free_walk(self, kmem: &mut Kmem)
        requires
            old(kmem).wf(),
            self.wf(old(kmem)@),
            forall|a: int| 0 <= a ==> !flag(#[trigger] self.entry(old(kmem)@, a), PTE_V),
        ensures
            final(kmem).wf(),
            forall|p: u64| #[trigger]
                final(kmem)@.frames.contains_key(p) == (old(kmem)@.frames.contains_key(p)
                    && !self.is_node(p)),
            forall|p: u64| #[trigger]
                final(kmem)@.frames.contains_key(p) ==> final(kmem)@.frames[p] == old(
                    kmem,
                )@.frames[p],
            forall|p: u64| #[trigger]
                final(kmem)@.free.contains(p) == (old(kmem)@.free.contains(p) || self.is_node(p)),
    {
        let ghost k0 = kmem@;
        let mut i: usize = 0;
        proof {
            assert forall|p: u64| !self.below(0, 0, p) by {}
        }
        while i < NPTE
            invariant
                i <= NPTE,
                kmem.wf(),
                k0 == old(kmem)@,
                self.wf(k0),
                self.freed(k0, kmem@, i as int, 0),
            decreases NPTE - i,
        {
            proof {
                assert(!self.below(i as int, 0, self.root));
                assert(kmem@.frames.contains_key(self.root));
                assert(k0.table(self.root)[i as int] == link(self.mids@, i as int));
                if self.mids@.contains_key(i as int) {
                    lemma_node_pte(self.mids@[i as int]);
                }
                crate::vm::lemma_zero_invalid();
            }
            let pte = PageTableEntry(kmem.pte(self.root, i));
            if pte.is_v() {
                // this PTE points to a lower-level page table
                let mid = pte.as_pa().0;
                assert(mid == self.mids@[i as int]);
                let mut j: usize = 0;
                while j < NPTE
                    invariant
                        j <= NPTE,
                        i < NPTE,
                        kmem.wf(),
                        self.wf(k0),
                        self.mids@.contains_key(i as int),
                        mid == self.mids@[i as int],
                        self.freed(k0, kmem@, i as int, j as int),
                    decreases NPTE - j,
                {
                    let ghost t = 512 * i + j;
                    proof {
                        assert(!self.below(i as int, j as int, mid));
                        assert(kmem@.frames.contains_key(mid));
                        assert(k0.table(self.mids@[i as int])[j as int] == link(self.tabs@, t));
                        if self.tabs@.contains_key(t) {
                            lemma_node_pte(self.tabs@[t]);
                        }
                        crate::vm::lemma_zero_invalid();
                    }
                    let pte = PageTableEntry(kmem.pte(mid, j));
                    if pte.is_v() {
                        let tab = pte.as_pa().0;
                        proof {
                            assert(tab == self.tabs@[t]);
                            assert(!self.below(i as int, j as int, tab));
                            assert(kmem@.frames.contains_key(tab));
                        }
                        kmem.release(tab);
                        proof {
                            assert forall|p: u64| #[trigger] self.below(i as int, j + 1, p) == (self.below(
                                i as int,
                                j as int,
                                p,
                            ) || p == tab) by {
                                if p == tab {
                                    assert(self.tabs@.contains_key(t));
                                }
                            }
                        }
                    } else {
                        assert forall|p: u64| #[trigger] self.below(i as int, j + 1, p) == self.below(
                            i as int,
                            j as int,
                            p,
                        ) by {
                            assert(!self.tabs@.contains_key(t));
                        }
                    }
                    j += 1;
                }
                proof {
                    assert(!self.below(i as int, NPTE as int, mid));
                    assert(kmem@.frames.contains_key(mid));
                }
                kmem.release(mid);
                proof {
                    assert forall|p: u64| #[trigger] self.below(i + 1, 0, p) == (self.below(
                        i as int,
                        NPTE as int,
                        p,
                    ) || p == mid) by {
                        if p == mid {
                            assert(self.mids@.contains_key(i as int));
                        }
                    }
                }
            } else {
                assert forall|p: u64| #[trigger] self.below(i + 1, 0, p) == self.below(i as int, 0, p) by {
                    if exists|t: int| #[trigger] self.tabs@.contains_key(t) && t < 512 * (i + 1)
                        && self.tabs@[t] == p {
                        let t = choose|t: int| #[trigger]
                            self.tabs@.contains_key(t) && t < 512 * (i + 1) && self.tabs@[t] == p;
                        assert(self.mids@.contains_key(t / 512));
                        assert(t / 512 != i);
                    }
                }
            }
            i += 1;
        }
        proof {
            assert(!self.below(NPTE as int, 0, self.root));
            assert(kmem@.frames.contains_key(self.root));
            assert forall|p: u64| #[trigger] self.is_node(p) == (self.below(NPTE as int, 0, p) || p
                == self.root) by {
                if exists|t: int| #[trigger] self.tabs@.contains_key(t) && self.tabs@[t] == p {
                    let t = choose|t: int| #[trigger] self.tabs@.contains_key(t) && self.tabs@[t] == p;
                    assert(self.mids@.contains_key(t / 512));
                }
            }
        }
        kmem.release(self.root);
    }

    /// The number of valid entries for pages below page number `n`.
    pub open spec fn used_below(self, k: KmemState, n: int) -> nat
        decreases n,
    {
        if n <= 0 {
            0
        } else {
            let pte = self.entry(k, (n - 1) * PGSIZE);
            self.used_below(k, n - 1) + if flag(pte, PTE_V) && leaf(pte) {
                1nat
            } else {
                0nat
            }
        }
    }

    proof fn lemma_used_hole(self, k: KmemState, n: int, m: int)
        requires
            0 <= n <= m,
            forall|a: int| n * PGSIZE <= a < m * PGSIZE ==> #[trigger] self.entry(k, a) == 0,
        ensures
            self.used_below(k, m) == self.used_below(k, n),
        decreases m - n,
    {
        if n < m {
            self.lemma_used_hole(k, n, m - 1);
            assert(self.entry(k, (m - 1) * PGSIZE) == 0);
            crate::vm::lemma_zero_invalid();
        }
    }

    proof fn lemma_used_bound(self, k: KmemState, n: int)
        requires
            0 <= n,
        ensures
            self.used_below(k, n) <= n,
        decreases n,
    {
        if n > 0 {
            self.lemma_used_bound(k, n - 1);
        }
    }

    /// Walk the page-table tree and count valid leaf pages.
    pub fn walk_used(&self, kmem: &Kmem) -> (r: u64)
        requires
            kmem.wf(),
            self.wf(kmem@),
        ensures
            r == self.used_below(kmem@, 0x800_0000),
            r <= 0x800_0000,
    {
        let mut used: u64 = 0;
        let mut i: usize = 0;
        while i < NPTE
            invariant
                i <= NPTE,
                kmem.wf(),
                self.wf(kmem@),
                used == self.used_below(kmem@, 0x4_0000 * i),
                used <= 0x4_0000 * i,
            decreases NPTE - i,
        {
            proof {
                assert(kmem@.table(self.root)[i as int] == link(self.mids@, i as int));
                if self.mids@.contains_key(i as int) {
                    lemma_node_pte(self.mids@[i as int]);
                }
                crate::vm::lemma_zero_invalid();
            }
            let pte = PageTableEntry(kmem.pte(self.root, i));
            if pte.is_v() {
                let mid = pte.as_pa().0;
                let mut j: usize = 0;
                while j < NPTE
                    invariant
                        j <= NPTE,
                        i < NPTE,
                        kmem.wf(),
                        self.wf(kmem@),
                        self.mids@.contains_key(i as int),
                        mid == self.mids@[i as int],
                        used == self.used_below(kmem@, 512 * (512 * i + j)),
                        used <= 512 * (512 * i + j),
                    decreases NPTE - j,
                {
                    let ghost t = 512 * i + j;
                    proof {
                        assert(kmem@.table(self.mids@[i as int])[j as int] == link(self.tabs@, t));
                        if self.tabs@.contains_key(t) {
                            lemma_node_pte(self.tabs@[t]);
                        }
                        crate::vm::lemma_zero_invalid();
                    }
                    let pte = PageTableEntry(kmem.pte(mid, j));
                    if pte.is_v() {
                        let tab = pte.as_pa().0;
                        let mut k: usize = 0;
                        while k < NPTE
                            invariant
                                k <= NPTE,
                                i < NPTE,
                                j < NPTE,
                                kmem.wf(),
                                self.wf(kmem@),
                                t == 512 * i + j,
                                self.tabs@.contains_key(t),
                                tab == self.tabs@[t],
                                used == self.used_below(kmem@, 512 * t + k),
                                used <= 512 * t + k,
                            decreases NPTE - k,
                        {
                            let pte = PageTableEntry(kmem.pte(tab, k));
                            proof {
                                let n = 512 * t + k;
                                assert(tab_of(n * PGSIZE) == t && index_of(0, n * PGSIZE) == k);
                                assert(pte.0 == self.entry(kmem@, n * PGSIZE));
                            }
                            if pte.is_v() && pte.is_leaf() {
                                used += 1;
                            }
                            k += 1;
                        }
                    } else {
                        proof {
                            assert forall|a: int|
                                512 * t * PGSIZE <= a < (512 * t + 512) * PGSIZE implies #[trigger] self.entry(
                                kmem@,
                                a,
                            ) == 0 by {
                                assert(tab_of(a) == t);
                            }
                            self.lemma_used_hole(kmem@, 512 * t, 512 * t + 512);
                        }
                    }
                    j += 1;
                }
            } else {
                proof {
                    let n = 0x4_0000 * i;
                    assert forall|a: int|
                        n * PGSIZE <= a < (n + 0x4_0000) * PGSIZE implies #[trigger] self.entry(
                        kmem@,
                        a,
                    ) == 0 by {
                        assert(tab_of(a) / 512 == i);
                    }
                    self.lemma_used_hole(kmem@, n, n + 0x4_0000);
                }
            }
            i += 1;
        }
        used
    }
}

/// No more pages are mapped than were asked for, and all of them if there was no error.
pub proof fn lemma_map_run(s: Shape, va: int, n: nat, free: nat)
    ensures
        s.map_run(va, n, free).2 <= n,
        s.map_run(va, n, free).3 is Ok ==> s.map_run(va, n, free).2 == n,
    decreases n,
{
    if n > 0 && va < MAXVA {
        let (s1, f1, ok) = s.grow(va, free);
        lemma_map_run(s1, va + PGSIZE, (n - 1) as nat, f1);
    }
}

} // verus!
