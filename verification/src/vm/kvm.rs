//! The page table of the kernel.
use vstd::prelude::*;
use crate::kalloc::{zero_page, Content, FrameState, Kmem, KmemState};
use crate::memlayout::{
    kstack,
    kstack_at,
    KERNBASE,
    PHYSTOP,
    PLIC,
    PLIC_SIZE,
    QEMU_POWER,
    TRAMPOLINE,
    UART0,
    VIRTIO0,
};
use crate::param::NKSTACK_PAGES;
use crate::proc::ProcTable;
use crate::riscv::{entry_of, PGSIZE, PTE_R, PTE_V, PTE_W, PTE_X};
use crate::vm::pagetable::{PageTable, Shape};
use crate::vm::{flag, VmError, PA, VA};

verus! {

/// A range of addresses that is mapped to physical memory.
#[derive(Debug, Clone, Copy)]
pub struct Region {
    pub va: u64,
    pub pa: u64,
    pub size: u64,
    pub perm: u64,
}

impl Region {
    /// The region consists of pages.
    pub open spec fn ok(self) -> bool {
        &&& self.va % PGSIZE == 0
        &&& self.size % PGSIZE == 0
        &&& self.size > 0
        &&& self.va + self.size <= u64::MAX
        &&& self.pa + self.size <= u64::MAX
    }

    /// `a` lies in the region.
    pub open spec fn holds(self, a: int) -> bool {
        self.va <= a < self.va + self.size
    }

    /// The entry for `a`, which lies in the region.
    pub open spec fn entry(self, a: int) -> u64 {
        entry_of((self.pa + (a - self.va) / (PGSIZE as int) * PGSIZE) as u64) | self.perm | PTE_V
    }
}

/// The entry for `a` when the first `n` regions are mapped: that of the last region it lies in.
pub open spec fn mapped(regions: Seq<Region>, n: int, a: int) -> u64
    decreases n,
{
    if n <= 0 {
        0
    } else if regions[n - 1].holds(a) {
        regions[n - 1].entry(a)
    } else {
        mapped(regions, n - 1, a)
    }
}

/// The regions consist of pages, and none overlaps another.
pub open spec fn regions_ok(regions: Seq<Region>) -> bool {
    &&& forall|i: int| 0 <= i < regions.len() ==> (#[trigger] regions[i]).ok()
    &&& forall|i: int, j: int|
        #![trigger regions[i], regions[j]]
        0 <= i < j < regions.len() ==> regions[i].va + regions[i].size <= regions[j].va
            || regions[j].va + regions[j].size <= regions[i].va
}

/// There are frames enough for the tables of the regions from `i` on.
pub open spec fn room_for(shape: Shape, free: nat, regions: Seq<Region>, i: int) -> bool
    decreases regions.len() - i,
{
    if i >= regions.len() {
        true
    } else {
        let (s, f, m, r) = shape.map_run(
            regions[i].va as int,
            (regions[i].size / PGSIZE) as nat,
            free,
        );
        r is Ok && room_for(s, f, regions, i + 1)
    }
}

/// The regions of the kernel, whose code ends at `etext`.
pub open spec fn kernel_regions(etext: u64, trampoline: u64) -> Seq<Region> {
    seq![
        Region { va: UART0, pa: UART0, size: PGSIZE, perm: PTE_R | PTE_W },
        Region { va: VIRTIO0, pa: VIRTIO0, size: PGSIZE, perm: PTE_R | PTE_W },
        Region { va: QEMU_POWER, pa: QEMU_POWER, size: PGSIZE, perm: PTE_R | PTE_W },
        Region { va: PLIC, pa: PLIC, size: PLIC_SIZE, perm: PTE_R | PTE_W },
        Region {
            va: KERNBASE,
            pa: KERNBASE,
            size: (etext - KERNBASE) as u64,
            perm: PTE_R | PTE_X,
        },
        Region { va: etext, pa: etext, size: (PHYSTOP - etext) as u64, perm: PTE_R | PTE_W },
        Region { va: TRAMPOLINE, pa: trampoline, size: PGSIZE, perm: PTE_R | PTE_X },
    ]
}

/// Kernel Page Table
pub struct Kvm(pub PageTable);

impl Kvm {
    /// Allocates a new uninitialized kernel page table.
    pub fn try_new(kmem: &mut Kmem) -> (r: Result<Self, VmError>)
        requires
            old(kmem).wf(),
        ensures
            final(kmem).wf(),
            r is Ok <==> old(kmem)@.free.len() > 0,
            r matches Err(e) ==> e == VmError::Alloc && final(kmem)@ == old(kmem)@,
            r matches Ok(v) ==> {
                &&& v.0.wf(final(kmem)@)
                &&& v.0.shape() == (Shape { mids: Set::empty(), tabs: Set::empty() })
                &&& final(kmem)@.free.len() == old(kmem)@.free.len() - 1
                &&& forall|a: int| 0 <= a ==> #[trigger] v.0.entry(final(kmem)@, a) == 0
            },
    {
        proof {
            kmem.lemma_wf();
        }
        match PageTable::try_new(kmem) {
            Ok(pagetable) => {
                proof {
                    assert(pagetable.shape().mids =~= Set::empty());
                    assert(pagetable.shape().tabs =~= Set::empty());
                    assert forall|a: int| 0 <= a implies #[trigger] pagetable.entry(kmem@, a) == 0 by {
                        assert(!pagetable.tabs@.contains_key(crate::vm::pagetable::tab_of(a)));
                    }
                }
                Ok(Kvm(pagetable))
            },
            Err(e) => Err(e),
        }
    }

    /// Returns a reference to the kernel page table.
    pub fn get(&self) -> (r: &PageTable)
        ensures
            *r == self.0,
    {
        &self.0
    }

    /// Maps a region in the kernel page table.
    ///
    /// Only used when booting.
    /// Does not flush TLB or enable paging.
    pub fn map(&mut self, kmem: &mut Kmem, region: Region)
        requires
            old(kmem).wf(),
            old(self).0.wf(old(kmem)@),
            region.ok(),
            forall|a: int|
                region.holds(a) ==> !flag(#[trigger] old(self).0.entry(old(kmem)@, a), PTE_V),
            old(self).0.shape().map_run(
                region.va as int,
                (region.size / PGSIZE) as nat,
                old(kmem)@.free.len(),
            ).3 is Ok,
        ensures
            final(kmem).wf(),
            final(self).0.wf(final(kmem)@),
            old(self).0.grew(old(kmem)@, final(self).0, final(kmem)@),
            ({
                let (s, f, m, r) = old(self).0.shape().map_run(
                    region.va as int,
                    (region.size / PGSIZE) as nat,
                    old(kmem)@.free.len(),
                );
                final(self).0.shape() == s && final(kmem)@.free.len() == f
            }),
            forall|a: int|
                0 <= a ==> #[trigger] final(self).0.entry(final(kmem)@, a) == (if region.holds(a) {
                    region.entry(a)
                } else {
                    old(self).0.entry(old(kmem)@, a)
                }),
    {
        let r = self.0.map_pages(kmem, VA(region.va), PA(region.pa), region.size, region.perm);
        proof {
            assert(r is Ok);
            assert(region.size / PGSIZE * PGSIZE == region.size);
        }
    }

    /// Maps the given regions in an empty kernel page table.
    fn map_all(&mut self, kmem: &mut Kmem, regions: &Vec<Region>)
        requires
            old(kmem).wf(),
            old(self).0.wf(old(kmem)@),
            forall|a: int| 0 <= a ==> #[trigger] old(self).0.entry(old(kmem)@, a) == 0,
            regions_ok(regions@),
            room_for(old(self).0.shape(), old(kmem)@.free.len(), regions@, 0),
        ensures
            final(kmem).wf(),
            final(self).0.wf(final(kmem)@),
            forall|a: int|
                0 <= a ==> #[trigger] final(self).0.entry(final(kmem)@, a) == mapped(
                    regions@,
                    regions@.len() as int,
                    a,
                ),
            old(self).0.grew(old(kmem)@, final(self).0, final(kmem)@),
    {
        let mut i: usize = 0;
        let ghost v0 = self.0;
        let ghost k0 = kmem@;
        proof {
            kmem.lemma_wf();
        }
        while i < regions.len()
            invariant
                i <= regions@.len(),
                kmem.wf(),
                self.0.wf(kmem@),
                regions_ok(regions@),
                room_for(self.0.shape(), kmem@.free.len(), regions@, i as int),
                v0 == old(self).0,
                k0 == old(kmem)@,
                forall|p: u64| #[trigger] k0.free.contains(p) ==> !k0.frames.contains_key(p),
                v0.grew(k0, self.0, kmem@),
                forall|a: int|
                    0 <= a ==> #[trigger] self.0.entry(kmem@, a) == mapped(
                        regions@,
                        i as int,
                        a,
                    ),
            decreases regions@.len() - i,
        {
            let region = regions[i];
            proof {
                assert(regions@[i as int].ok());
                assert forall|a: int| region.holds(a) implies !flag(
                    #[trigger] self.0.entry(kmem@, a),
                    PTE_V,
                ) by {
                    lemma_unmapped(regions@, i as int, i as int, a);
                    crate::vm::lemma_zero_invalid();
                }
            }
            let ghost v1 = self.0;
            let ghost k1 = kmem@;
            self.map(kmem, region);
            proof {
                v1.lemma_nodes_live(k1);
                v0.lemma_grew_trans(k0, v1, k1, self.0, kmem@);
            }
            i += 1;
        }
    }

    /// Sets up the kernel page table by mapping the necessary kernel regions.
    pub fn make(&mut self, kmem: &mut Kmem, etext: u64, trampoline: u64)
        requires
            old(kmem).wf(),
            old(self).0.wf(old(kmem)@),
            forall|a: int| 0 <= a ==> #[trigger] old(self).0.entry(old(kmem)@, a) == 0,
            KERNBASE < etext < PHYSTOP,
            etext % PGSIZE == 0,
            trampoline + PGSIZE <= u64::MAX,
            room_for(
                old(self).0.shape(),
                old(kmem)@.free.len(),
                kernel_regions(etext, trampoline),
                0,
            ),
        ensures
            final(kmem).wf(),
            final(self).0.wf(final(kmem)@),
            forall|a: int|
                0 <= a ==> #[trigger] final(self).0.entry(final(kmem)@, a) == mapped(
                    kernel_regions(etext, trampoline),
                    7,
                    a,
                ),
            old(self).0.grew(old(kmem)@, final(self).0, final(kmem)@),
    {
        let mut regions: Vec<Region> = Vec::new();
        // uart registers
        regions.push(Region { va: UART0, pa: UART0, size: PGSIZE, perm: PTE_R | PTE_W });
        // virtio mmio disk interface
        regions.push(Region { va: VIRTIO0, pa: VIRTIO0, size: PGSIZE, perm: PTE_R | PTE_W });
        // qemu test device
        regions.push(Region { va: QEMU_POWER, pa: QEMU_POWER, size: PGSIZE, perm: PTE_R | PTE_W });
        // PLIC
        regions.push(Region { va: PLIC, pa: PLIC, size: PLIC_SIZE, perm: PTE_R | PTE_W });
        // kernel text executable and read-only
        regions.push(
            Region { va: KERNBASE, pa: KERNBASE, size: etext - KERNBASE, perm: PTE_R | PTE_X },
        );
        // kernel data and the physical RAM
        regions.push(Region { va: etext, pa: etext, size: PHYSTOP - etext, perm: PTE_R | PTE_W });
        // trampoline for trap entry/exit mapped to the highest virtual address in the kernel
        regions.push(
            Region { va: TRAMPOLINE, pa: trampoline, size: PGSIZE, perm: PTE_R | PTE_X },
        );
        proof {
            assert(regions@ =~= kernel_regions(etext, trampoline));
            assert(regions_ok(regions@));
        }
        self.map_all(kmem, &regions);
    }
}

/// What lies in a region is not mapped by the regions before it.
proof fn lemma_unmapped(regions: Seq<Region>, i: int, n: int, a: int)
    requires
        regions_ok(regions),
        0 <= n <= i < regions.len(),
        regions[i].holds(a),
    ensures
        mapped(regions, n, a) == 0,
    decreases n,
{
    if n > 0 {
        assert(regions[n - 1].ok() && regions[i].ok());
        lemma_unmapped(regions, i, n - 1, a);
    }
}

/// The kernel's code can be executed but not written, its data written but not executed.
pub proof fn law_kernel_text(etext: u64, trampoline: u64, a: int)
    requires
        KERNBASE < etext < PHYSTOP,
        KERNBASE <= a < PHYSTOP,
    ensures
        ({
            let e = mapped(kernel_regions(etext, trampoline), 7, a);
            if a < etext {
                e == entry_of((a / (PGSIZE as int) * PGSIZE) as u64) | (PTE_R | PTE_X) | PTE_V
            } else {
                etext % PGSIZE == 0 ==> e == entry_of((a / (PGSIZE as int) * PGSIZE) as u64) | (
                PTE_R | PTE_W) | PTE_V
            }
        }),
{
    reveal_with_fuel(mapped, 8);
}

/// The number of pages of all kernel stacks.
pub const NSTACKS: usize = 256;

/// The address of the `j`th page of the kernel stacks.
pub open spec fn stack_page(j: int) -> int {
    kstack_at(j / (NKSTACK_PAGES as int)) + j % (NKSTACK_PAGES as int) * PGSIZE
}

/// There are frames enough for the kernel stacks from the `j`th page on, and their tables.
pub open spec fn room_for_stacks(shape: Shape, free: nat, j: int) -> bool
    decreases NSTACKS - j,
{
    if j >= NSTACKS {
        true
    } else {
        let (s, f, ok) = shape.grow(stack_page(j), (free - 1) as nat);
        free > 0 && ok && room_for_stacks(s, f, j + 1)
    }
}

/// The first `n` pages of the kernel stacks are mapped to the frames `ps`, each to its own, which
/// were free, and nothing else is.
pub open spec fn stacks_mapped(
    v0: PageTable,
    k0: KmemState,
    v1: PageTable,
    k1: KmemState,
    ps: Seq<u64>,
) -> bool {
    &&& ps.no_duplicates()
    &&& forall|j: int| 0 <= j < ps.len() ==> k0.free.contains(#[trigger] ps[j])
    &&& forall|j: int|
        0 <= j < ps.len() ==> #[trigger] v1.entry(k1, stack_page(j)) == entry_of(ps[j]) | (PTE_R
            | PTE_W) | PTE_V
    &&& forall|a: int|
        0 <= a && (forall|j: int|
            0 <= j < ps.len() ==> !(#[trigger] stack_page(j) <= a < stack_page(j) + PGSIZE))
            ==> #[trigger] v1.entry(k1, a) == v0.entry(k0, a)
}

/// The frames `ps` of the kernel stacks are pages of zeros, each in use once. Every other frame that
/// is new in use is one of the page table's, and every frame that was in use, but for the page
/// table's own, is as it was.
pub open spec fn stacks_taken(
    v0: PageTable,
    k0: KmemState,
    v1: PageTable,
    k1: KmemState,
    ps: Seq<u64>,
) -> bool {
    &&& forall|j: int|
        0 <= j < ps.len() ==> k1.frames.contains_key(#[trigger] ps[j]) && k1.frames[ps[j]] == (
        FrameState { refs: 1, content: Content::Page(zero_page()) }) && !v1.is_node(ps[j])
    &&& forall|p: u64|
        #![trigger k0.frames.contains_key(p)]
        #![trigger k1.frames[p]]
        k0.frames.contains_key(p) ==> k1.frames.contains_key(p) && (!v0.is_node(p) ==> k1.frames[p]
            == k0.frames[p])
    &&& forall|p: u64| #[trigger]
        k1.frames.contains_key(p) && !k0.frames.contains_key(p) ==> k0.free.contains(p) && (
        ps.contains(p) || v1.is_node(p))
    &&& forall|p: u64| #[trigger]
        v1.is_node(p) ==> v0.is_node(p) || (k0.free.contains(p) && !k1.free.contains(p))
}

/// One more page for a stack.
proof fn lemma_taken(
    v0: PageTable,
    k0: KmemState,
    v1: PageTable,
    k1: KmemState,
    ps: Seq<u64>,
    p: u64,
    v2: PageTable,
    k2: KmemState,
)
    requires
        stacks_taken(v0, k0, v1, k1, ps),
        v1.wf(k1),
        crate::vm::uvm::kmem_ok(k0),
        crate::vm::uvm::kmem_ok(k1),
        forall|q: u64| #[trigger] k1.free.contains(q) ==> k0.free.contains(q),
        k1.free.contains(p),
        v1.grew(k1.allocated(p, Content::Page(zero_page())), v2, k2),
    ensures
        stacks_taken(v0, k0, v2, k2, ps.push(p)),
{
    let k = k1.allocated(p, Content::Page(zero_page()));
    let all = ps.push(p);
    v1.lemma_nodes_live(k1);
    assert forall|q: u64| #[trigger] v2.is_node(q) implies q != p && (v0.is_node(q) || (
    k0.free.contains(q) && !k2.free.contains(q))) by {
        if v1.is_node(q) {
            assert(k1.frames.contains_key(q));
            if k2.free.contains(q) {
                assert(k.free.contains(q));
                assert(k1.free.contains(q));
            }
        } else {
            assert(k.free.contains(q));
            assert(k1.free.contains(q));
        }
    }
    assert(!v1.is_node(p));
    assert forall|j: int| 0 <= j < all.len() implies k2.frames.contains_key(#[trigger] all[j])
        && k2.frames[all[j]] == (FrameState { refs: 1, content: Content::Page(zero_page()) })
        && !v2.is_node(all[j]) by {
        if j < ps.len() {
            assert(all[j] == ps[j]);
            assert(k.frames.contains_key(ps[j]));
            assert(!k1.free.contains(ps[j]));
            assert(!k.free.contains(ps[j]));
        } else {
            assert(k.frames.contains_key(p));
        }
    }
    assert forall|q: u64| #[trigger] k0.frames.contains_key(q) implies k2.frames.contains_key(q)
        && (!v0.is_node(q) ==> k2.frames[q] == k0.frames[q]) by {
        assert(k1.frames.contains_key(q));
        assert(k.frames.contains_key(q));
        assert(k2.frames.contains_key(q));
        assert(q != p);
        if v1.is_node(q) && !v0.is_node(q) {
            assert(k0.free.contains(q));
        }
    }
    assert forall|q: u64| #[trigger]
        k2.frames.contains_key(q) && !k0.frames.contains_key(q) implies k0.free.contains(q) && (
    all.contains(q) || v2.is_node(q)) by {
        if q == p {
            assert(all[ps.len() as int] == p);
        } else if k.frames.contains_key(q) {
            assert(k1.frames.contains_key(q));
            if ps.contains(q) {
                let j = choose|j: int| 0 <= j < ps.len() && ps[j] == q;
                assert(all[j] == q);
            } else {
                assert(v1.is_node(q));
                lemma_still_node(v1, k, v2, k2, q);
            }
        } else {
            assert(k.free.contains(q));
            assert(k1.free.contains(q));
        }
    }
}

/// A page table that grew has the tables that it had.
proof fn lemma_still_node(v1: PageTable, k1: KmemState, v2: PageTable, k2: KmemState, q: u64)
    requires
        v1.grew(k1, v2, k2),
        v1.is_node(q),
    ensures
        v2.is_node(q),
{
    if q != v1.root {
        if exists|i: int| #[trigger] v1.mids@.contains_key(i) && v1.mids@[i] == q {
            let i = choose|i: int| #[trigger] v1.mids@.contains_key(i) && v1.mids@[i] == q;
            assert(v2.mids@.contains_key(i) && v2.mids@[i] == q);
        } else {
            let t = choose|t: int| #[trigger] v1.tabs@.contains_key(t) && v1.tabs@[t] == q;
            assert(v2.tabs@.contains_key(t) && v2.tabs@[t] == q);
        }
    }
}

impl ProcTable {
    /// Allocates pages for each process's kernel stack and maps them into the kernel page table.
    ///
    /// The pages are mapped high in memory and followed by an invalid guard page.
    #[verifier::rlimit(40)]
    pub fn map_stacks(&self, kvm: &mut Kvm, kmem: &mut Kmem)
        requires
            old(kmem).wf(),
            old(kvm).0.wf(old(kmem)@),
            forall|a: int|
                0x3f_0000_0000 < a < TRAMPOLINE ==> !flag(
                    #[trigger] old(kvm).0.entry(old(kmem)@, a),
                    PTE_V,
                ),
            room_for_stacks(old(kvm).0.shape(), old(kmem)@.free.len(), 0),
        ensures
            final(kmem).wf(),
            final(kvm).0.wf(final(kmem)@),
            exists|ps: Seq<u64>|
                ps.len() == NSTACKS && #[trigger] stacks_mapped(
                    old(kvm).0,
                    old(kmem)@,
                    final(kvm).0,
                    final(kmem)@,
                    ps,
                ) && stacks_taken(old(kvm).0, old(kmem)@, final(kvm).0, final(kmem)@, ps),
    {
        let ghost v0 = kvm.0;
        let ghost k0 = kmem@;
        let ghost mut ps: Seq<u64> = seq![];
        let mut j: usize = 0;
        proof {
            kmem.lemma_wf();
        }
        while j < NSTACKS
            invariant
                j <= NSTACKS,
                kmem.wf(),
                kvm.0.wf(kmem@),
                v0 == old(kvm).0,
                k0 == old(kmem)@,
                crate::vm::uvm::kmem_ok(k0),
                ps.len() == j,
                stacks_mapped(v0, k0, kvm.0, kmem@, ps),
                stacks_taken(v0, k0, kvm.0, kmem@, ps),
                forall|i: int| 0 <= i < ps.len() ==> !kmem@.free.contains(#[trigger] ps[i]),
                forall|p: u64| #[trigger] kmem@.free.contains(p) ==> k0.free.contains(p),
                forall|a: int|
                    0x3f_0000_0000 < a < TRAMPOLINE ==> !flag(#[trigger] v0.entry(k0, a), PTE_V),
                room_for_stacks(kvm.0.shape(), kmem@.free.len(), j as int),
            decreases NSTACKS - j,
        {
            let base = kstack(j / NKSTACK_PAGES);
            let va = base + (j % NKSTACK_PAGES) as u64 * PGSIZE;
            let ghost k1 = kmem@;
            let ghost v1 = kvm.0;
            proof {
                kmem.lemma_wf();
                assert(va == stack_page(j as int));
            }
            let pa = match kmem.allocate_page() {
                Some(pa) => pa,
                None => {
                    return;
                },
            };
            let ghost k2 = kmem@;
            proof {
                kmem.lemma_wf();
                kvm.0.lemma_nodes_live(k1);
                crate::vm::uvm::lemma_pt_frame(kvm.0, k1, k2);
                assert forall|a: int| va <= a < va + PGSIZE implies !flag(
                    #[trigger] kvm.0.entry(k2, a),
                    PTE_V,
                ) by {
                    assert(kvm.0.entry(k2, a) == v1.entry(k1, a));
                    assert forall|i: int| 0 <= i < ps.len() implies !(#[trigger] stack_page(i) <= a
                        < stack_page(i) + PGSIZE) by {
                        lemma_stack_pages(i, j as int);
                    }
                    assert(v1.entry(k1, a) == v0.entry(k0, a));
                }
                reveal_with_fuel(Shape::map_run, 2);
            }
            let region = Region { va, pa, size: PGSIZE, perm: PTE_R | PTE_W };
            kvm.map(kmem, region);
            proof {
                let k3 = kmem@;
                let old_ps = ps;
                ps = ps.push(pa);
                lemma_taken(v0, k0, v1, k1, old_ps, pa, kvm.0, k3);
                assert forall|i: int| 0 <= i < ps.len() implies #[trigger] kvm.0.entry(
                    k3,
                    stack_page(i),
                ) == entry_of(ps[i]) | (PTE_R | PTE_W) | PTE_V by {
                    if i < j {
                        lemma_stack_pages(i, j as int);
                        assert(!region.holds(stack_page(i)));
                        assert(v1.entry(k2, stack_page(i)) == v1.entry(k1, stack_page(i)));
                        assert(v1.entry(k1, stack_page(i)) == entry_of(old_ps[i]) | (PTE_R | PTE_W)
                            | PTE_V);
                    } else {
                        lemma_stack_pages(i, i);
                        assert(region.holds(stack_page(i)));
                        assert(region.entry(stack_page(i)) == entry_of(pa) | (PTE_R | PTE_W) | PTE_V);
                    }
                }
                assert forall|a: int|
                    0 <= a && (forall|i: int|
                        0 <= i < ps.len() ==> !(#[trigger] stack_page(i) <= a < stack_page(i)
                            + PGSIZE)) implies #[trigger] kvm.0.entry(k3, a) == v0.entry(k0, a) by {
                    assert(!(stack_page(j as int) <= a < stack_page(j as int) + PGSIZE));
                    assert(!region.holds(a));
                    assert(kvm.0.entry(k3, a) == v1.entry(k2, a));
                    assert(v1.entry(k2, a) == v1.entry(k1, a));
                }
                assert(ps.no_duplicates());
                assert forall|i: int| 0 <= i < ps.len() implies !k3.free.contains(
                    #[trigger] ps[i],
                ) by {
                    if k3.free.contains(ps[i]) {
                        assert(k2.free.contains(ps[i]));
                        if i < j {
                            assert(k1.free.contains(old_ps[i]));
                        }
                    }
                }
                assert forall|p: u64| #[trigger] k3.free.contains(p) implies k0.free.contains(p) by {
                    assert(k2.free.contains(p));
                }
            }
            j += 1;
        }
        assert(stacks_mapped(old(kvm).0, old(kmem)@, kvm.0, kmem@, ps));
    }
}

/// The pages of the kernel stacks lie apart from each other, below the trampoline.
proof fn lemma_stack_pages(i: int, j: int)
    requires
        0 <= i <= j < NSTACKS,
    ensures
        i < j ==> stack_page(i) >= stack_page(j) + PGSIZE || stack_page(i) + PGSIZE <= stack_page(j),
        0x3f_0000_0000 < stack_page(i) < TRAMPOLINE - PGSIZE,
        stack_page(i) % (PGSIZE as int) == 0,
{
}

} // verus!
