//! What holds of the memory of processes.
use vstd::prelude::*;
use crate::error::KernelError;
use crate::kalloc::{zero_page, KmemState};
use crate::le::splice;
use crate::riscv::{
    entry_of,
    round_down,
    round_up,
    MAXVA,
    PGSIZE,
    PTE_COW,
    PTE_R,
    PTE_U,
    PTE_V,
    PTE_W,
    PTE_X,
};
use crate::vm::pagetable::{lemma_map_run, PageTable, Shape};
use crate::vm::usermem::{cow_flags, UserMem, UserPage, MAXPAGES, UPAGES};
use crate::vm::uvm::{kmem_ok, Uvm};
use crate::vm::{flag, leaf, VmError};

verus! {

/// What a process does to its memory no other process sees.
///
/// `u` in `k0` became `v` in `k1` by any of the operations on user memory. Another process whose
/// tables are its own, and whose pages `u` cannot write, has the same pages with the same flags
/// and bytes before and after.
pub proof fn law_isolation(u: Uvm, k0: KmemState, v: Uvm, k1: KmemState, other: Uvm)
    requires
        kmem_ok(k0),
        u.apart(k0, v, k1),
        other.wf(k0),
        forall|p: u64| #[trigger] other.0.is_node(p) ==> !u.owns(k0, p),
        forall|p: u64| #[trigger]
            other.owns(k0, p) && u.owns(k0, p) ==> k0.frames[p].refs >= 2 && !u.writes(k0, p),
    ensures
        other.wf(k1),
        other.mem(k1).pages.dom() == other.mem(k0).pages.dom(),
        forall|n: int| #[trigger]
            other.mem(k0).pages.contains_key(n) ==> other.mem(k1).pages[n].flags == other.mem(
                k0,
            ).pages[n].flags && other.mem(k1).pages[n].data == other.mem(k0).pages[n].data,
{
    other.lemma_owns(k0);
    assert forall|p: u64| #[trigger] other.owns(k0, p) implies k1.frames.contains_key(p)
        && k1.frames[p].content == k0.frames[p].content by {
        assert(u.frame_apart(k0, v, k1, p));
    }
    assert forall|p: u64| #[trigger] other.0.is_node(p) implies k1.frames[p].refs == k0.frames[p].refs by {
        assert(other.owns(k0, p));
        assert(u.frame_apart(k0, v, k1, p));
    }
    other.lemma_recounted(k0, k1);
}

/// After a fork the child has every page of the parent that lies below `end`, with the same flags
/// and bytes; none of them can be written until it is copied.
pub proof fn law_fork_shares(parent: UserMem, child: UserMem, n: int, end: int)
    requires
        parent.share(child, n, end) is Some,
        parent.share(child, n, end)->0.result is Ok,
        0 <= n,
    ensures
        ({
            let f = parent.share(child, n, end)->0;
            &&& f.parent.pages.dom() == parent.pages.dom()
            &&& forall|i: int| #[trigger]
                f.child.pages.contains_key(i) == (child.pages.contains_key(i) || (n <= i < end
                    && parent.pages.contains_key(i)))
            &&& forall|i: int|
                n <= i < end && #[trigger] parent.pages.contains_key(i) ==> {
                    &&& f.child.pages[i].data == parent.pages[i].data
                    &&& f.child.pages[i].flags == cow_flags(parent.pages[i].flags)
                    &&& f.parent.pages[i].data == parent.pages[i].data
                    &&& f.parent.pages[i].flags == cow_flags(parent.pages[i].flags)
                    &&& !flag(f.child.pages[i].flags, PTE_W)
                    &&& !flag(f.parent.pages[i].flags, PTE_W)
                    &&& f.parent.pages[i].refs == parent.pages[i].refs + 1
                }
            &&& forall|i: int| !(n <= i < end) ==> #[trigger] f.parent.pages[i] == parent.pages[i]
            &&& forall|i: int| !(n <= i < end) ==> #[trigger] f.child.pages[i] == child.pages[i]
        }),
    decreases end - n,
{
    if n < end {
        let step = parent.share_page(child, n)->0;
        law_fork_shares(step.parent, step.child, n + 1, end);
        let f = parent.share(child, n, end)->0;
        assert(step.parent.pages.dom() =~= parent.pages.dom());
        if parent.pages.contains_key(n) {
            let fl = parent.pages[n].flags;
            assert(((fl & !4u64) | 256) & 4 == 0) by (bit_vector);
        }
        assert forall|i: int| n <= i < end && #[trigger] parent.pages.contains_key(i) implies {
            &&& f.child.pages[i].data == parent.pages[i].data
            &&& f.child.pages[i].flags == cow_flags(parent.pages[i].flags)
            &&& f.parent.pages[i].data == parent.pages[i].data
            &&& f.parent.pages[i].flags == cow_flags(parent.pages[i].flags)
            &&& !flag(f.child.pages[i].flags, PTE_W)
            &&& !flag(f.parent.pages[i].flags, PTE_W)
            &&& f.parent.pages[i].refs == parent.pages[i].refs + 1
        } by {
            assert(step.parent.pages.contains_key(i));
            assert(i > n ==> step.parent.pages[i] == parent.pages[i]);
            if i == n {
                assert(f.parent.pages[n] == step.parent.pages[n]);
                assert(f.child.pages[n] == step.child.pages[n]);
            }
        }
    }
}

/// A fork that fails leaves the parent with the pages that it had, and as many references to each.
pub proof fn law_fork_undone(parent: UserMem, child: UserMem, end: int)
    requires
        parent.share(child, 0, end) is Some,
        parent.share(child, 0, end)->0.result is Err,
        forall|i: int| 0 <= i < UPAGES ==> !#[trigger] child.pages.contains_key(i),
        forall|i: int|
            0 <= i < UPAGES && #[trigger] parent.pages.contains_key(i) ==> parent.pages[i].refs >= 1,
    ensures
        ({
            let f = parent.share(child, 0, end)->0;
            &&& f.parent.pages.dom() == parent.pages.dom()
            &&& forall|i: int|
                0 <= i < UPAGES && #[trigger] parent.pages.contains_key(i) ==> {
                    &&& f.parent.pages[i].data == parent.pages[i].data
                    &&& f.parent.pages[i].refs == parent.pages[i].refs
                    &&& flag(f.parent.pages[i].flags, PTE_W) ==> flag(parent.pages[i].flags, PTE_W)
                }
        }),
{
    lemma_fork_undone(parent, parent, child, 0, end);
}

/// The pages below `n` are shared, and the next one, or one after it, cannot be.
proof fn lemma_fork_undone(first: UserMem, parent: UserMem, child: UserMem, n: int, end: int)
    requires
        0 <= n,
        parent.share(child, n, end) is Some,
        parent.share(child, n, end)->0.result is Err,
        parent.pages.dom() == first.pages.dom(),
        forall|i: int|
            0 <= i < UPAGES ==> (#[trigger] child.pages.contains_key(i) == (i < n
                && first.pages.contains_key(i))),
        forall|i: int|
            0 <= i < UPAGES && #[trigger] first.pages.contains_key(i) ==> {
                &&& parent.pages[i].data == first.pages[i].data
                &&& parent.pages[i].refs == first.pages[i].refs + if i < n {
                    1int
                } else {
                    0int
                }
                &&& first.pages[i].refs >= 1
                &&& flag(parent.pages[i].flags, PTE_W) ==> flag(first.pages[i].flags, PTE_W)
            },
    ensures
        ({
            let f = parent.share(child, n, end)->0;
            &&& f.parent.pages.dom() == first.pages.dom()
            &&& forall|i: int|
                0 <= i < UPAGES && #[trigger] first.pages.contains_key(i) ==> {
                    &&& f.parent.pages[i].data == first.pages[i].data
                    &&& f.parent.pages[i].refs == first.pages[i].refs
                    &&& flag(f.parent.pages[i].flags, PTE_W) ==> flag(first.pages[i].flags, PTE_W)
                }
        }),
    decreases end - n,
{
    let step = parent.share_page(child, n)->0;
    let f = parent.share(child, n, end)->0;
    let fl = parent.pages[n].flags;
    assert(((fl & !4u64) | 256) & 4 == 0) by (bit_vector);
    if step.result is Ok {
        assert(step.parent.pages.dom() =~= parent.pages.dom());
        lemma_fork_undone(first, step.parent, step.child, n + 1, end);
    } else {
        assert(f == step);
        assert(f.parent.pages.dom() =~= parent.pages.dom());
        assert(parent.pages.dom().contains(n));
    }
}

/// Writing to a shared page gives the process a copy of its own with the same bytes.
pub proof fn law_copy_on_write(m: UserMem, size: int, va: int)
    requires
        PGSIZE <= va < size,
        m.pages.contains_key(va / (PGSIZE as int)),
        flag(m.pages[va / (PGSIZE as int)].flags, PTE_COW),
        va / (PGSIZE as int) < UPAGES,
        m.left > 0,
    ensures
        ({
            let n = va / (PGSIZE as int);
            let (m1, r) = m.fault(size, va)->0;
            &&& m.fault(size, va) is Some
            &&& r is Ok
            &&& m1.pages[n].data == m.pages[n].data
            &&& m1.pages[n].refs == 1
            &&& flag(m1.pages[n].flags, PTE_W)
            &&& !flag(m1.pages[n].flags, PTE_COW)
            &&& m1.pages.remove(n) == m.pages.remove(n)
        }),
{
    let n = va / (PGSIZE as int);
    let f = m.pages[n].flags;
    lemma_page_flags(f);
    let (m1, r) = m.fault(size, va)->0;
    assert(m1.pages.remove(n) =~= m.pages.remove(n));
}

/// What the kernel writes for a process to a page that is shared since a fork goes to a copy of its
/// own: the write succeeds, and the page holds what was written and its old bytes elsewhere.
pub proof fn law_kernel_write_copies(m: UserMem, size: int, va: int, src: Seq<u8>)
    requires
        PGSIZE <= va,
        va + src.len() <= size,
        0 < src.len() <= PGSIZE - va % (PGSIZE as int),
        va / (PGSIZE as int) < UPAGES,
        m.user(va / (PGSIZE as int)),
        flag(m.pages[va / (PGSIZE as int)].flags, PTE_COW),
        !flag(m.pages[va / (PGSIZE as int)].flags, PTE_W),
        m.left > 0,
    ensures
        ({
            let n = va / (PGSIZE as int);
            let (m1, r) = m.copy_to(size, va, src)->0;
            &&& m.copy_to(size, va, src) is Some
            &&& r is Ok
            &&& m1.pages[n].data == splice(m.pages[n].data, va % (PGSIZE as int), src)
            &&& m1.pages[n].refs == 1
            &&& flag(m1.pages[n].flags, PTE_W) && !flag(m1.pages[n].flags, PTE_COW)
            &&& m1.pages.remove(n) == m.pages.remove(n)
        }),
{
    let n = va / (PGSIZE as int);
    let va0 = round_down(va);
    assert(va0 / (PGSIZE as int) == n);
    law_copy_on_write(m, size, va0);
    let (m1, _) = m.fault(size, va0)->0;
    let k = UserMem::part(va, src.len() as int);
    assert(k == src.len() && src.take(k) =~= src && src.skip(k).len() == 0);
    let page = m1.pages[n];
    let m2 = UserMem {
        pages: m1.pages.insert(n, UserPage { data: splice(page.data, va - va0, src), ..page }),
        ..m1
    };
    assert(m2.copy_to(size, va0 + PGSIZE, src.skip(k)) == Some((m2, Ok::<(), VmError>(()))));
    assert(m.copy_to(size, va, src) == Some((m2, Ok::<(), VmError>(()))));
    assert(m2.pages.remove(n) =~= m1.pages.remove(n));
}

/// Every page that is there from `n` up to `end` can be used by user code and holds a page.
pub open spec fn usable(m: UserMem, n: int, end: int) -> bool {
    forall|i: int|
        n <= i < end && #[trigger] m.pages.contains_key(i) ==> flag(m.pages[i].flags, PTE_U)
            && m.pages[i].data.len() == PGSIZE
}

/// Copying from page boundary `va` on leaves the pages below alone.
proof fn lemma_copy_to_below(m: UserMem, size: int, va: int, src: Seq<u8>, n: int)
    requires
        0 <= va,
        n < va / (PGSIZE as int),
        m.copy_to(size, va, src) is Some,
    ensures
        ({
            let (m1, r) = m.copy_to(size, va, src)->0;
            &&& m1.pages.contains_key(n) == m.pages.contains_key(n)
            &&& m1.pages[n] == m.pages[n]
        }),
    decreases src.len(),
{
    let va0 = round_down(va);
    let k = UserMem::part(va, src.len() as int);
    let pn = va0 / (PGSIZE as int);
    if src.len() > 0 && va0 <= MAXVA {
        assert(pn == va / (PGSIZE as int));
        if let Some((m1, Ok(()))) = m.reach(size, va0) {
            if pn < UPAGES && k > 0 && flag(m1.pages[pn].flags, PTE_W) {
                let page = m1.pages[pn];
                let m2 = UserMem {
                    pages: m1.pages.insert(
                        pn,
                        UserPage { data: splice(page.data, va - va0, src.take(k)), ..page },
                    ),
                    ..m1
                };
                lemma_copy_to_below(m2, size, va0 + PGSIZE, src.skip(k), n);
            }
        }
    }
}

/// The flags of a page that was copied, and of a new one.
pub(crate) proof fn lemma_page_flags(f: u64)
    ensures
        ({
            let copied = (f & !PTE_COW) | PTE_W;
            &&& flag(copied, PTE_U) == flag(f, PTE_U)
            &&& flag(copied, PTE_W) && !flag(copied, PTE_COW)
        }),
        ({
            let new = (PTE_W | PTE_U | PTE_R) | PTE_V;
            flag(new, PTE_U) && flag(new, PTE_W) && flag(new, PTE_R) && !flag(new, PTE_COW)
        }),
{
    assert({
        let copied = (f & !256u64) | 4;
        let new = (4u64 | 16u64 | 2u64) | 1;
        &&& copied & 16 == f & 16 && copied & 4 != 0 && copied & 256 == 0
        &&& new & 16 != 0 && new & 4 != 0 && new & 2 != 0 && new & 256 == 0
    }) by (bit_vector);
}

proof fn lemma_reach(m: UserMem, size: int, va0: int, end: int)
    requires
        0 <= va0,
        va0 % (PGSIZE as int) == 0,
        usable(m, va0 / (PGSIZE as int), end),
        va0 / (PGSIZE as int) < end,
        m.reach(size, va0) is Some,
        (m.reach(size, va0)->0).1 is Ok,
    ensures
        ({
            let n = va0 / (PGSIZE as int);
            let (m1, r) = m.reach(size, va0)->0;
            m1.user(n) && m1.pages[n].data.len() == PGSIZE && usable(m1, n, end)
        }),
{
    let n = va0 / (PGSIZE as int);
    let (m1, r) = m.reach(size, va0)->0;
    let f = m.pages[n].flags;
    lemma_page_flags(f);
    assert(zero_page().len() == PGSIZE);
    if m.pages.contains_key(n) {
        assert(m.user(n));
    }
}

/// What was copied to user memory is what is copied from there.
pub proof fn law_copy_roundtrip(m: UserMem, size: int, va: int, src: Seq<u8>, acc: Seq<u8>)
    requires
        0 <= va,
        usable(m, va / (PGSIZE as int), MAXPAGES as int),
        m.copy_to(size, va, src) is Some,
        (m.copy_to(size, va, src)->0).1 is Ok,
    ensures
        ({
            let (m1, r) = m.copy_to(size, va, src)->0;
            m1.copy_from(size, va, src.len() as int, acc) == Some(
                (m1, Ok::<Seq<u8>, VmError>(acc + src)),
            )
        }),
    decreases src.len(),
{
    let (m3, _) = m.copy_to(size, va, src)->0;
    if src.len() == 0 {
        assert(acc + src =~= acc);
    } else {
        let va0 = round_down(va);
        let n = va0 / (PGSIZE as int);
        let k = UserMem::part(va, src.len() as int);
        let o = va - va0;
        assert(n == va / (PGSIZE as int));
        assert(n < UPAGES);
        lemma_reach(m, size, va0, MAXPAGES as int);
        let (m1, _) = m.reach(size, va0)->0;
        let page = m1.pages[n];
        let data = splice(page.data, o, src.take(k));
        let m2 = UserMem { pages: m1.pages.insert(n, UserPage { data, ..page }), ..m1 };
        assert(usable(m2, n, MAXPAGES as int));
        assert(usable(m2, (va0 + PGSIZE) / (PGSIZE as int), MAXPAGES as int));
        lemma_copy_to_below(m2, size, va0 + PGSIZE, src.skip(k), n);
        assert(m3.pages[n] == m2.pages[n]);
        assert(m3.user(n));
        assert(data.subrange(o, o + k) =~= src.take(k));
        law_copy_roundtrip(m2, size, va0 + PGSIZE, src.skip(k), acc + src.take(k));
        assert(acc + src.take(k) + src.skip(k) =~= acc + src);
    }
}

/// A page that is made read-only cannot be written, also not by the kernel for the process; its
/// contents stay, and so do all other pages. (A page that is shared since a fork is copied on the
/// first write all the same.)
pub proof fn law_protected_page(m: UserMem, size: int, va: int, src: Seq<u8>)
    requires
        0 <= va,
        !flag(m.pages[va / (PGSIZE as int)].flags, PTE_COW),
        m.set_writeable(va, false) matches Some((_, Ok(_))),
        src.len() > 0,
    ensures
        ({
            let (p, _) = m.set_writeable(va, false)->0;
            let n = va / (PGSIZE as int);
            &&& p.copy_to(size, va, src) == Some((p, Err::<(), VmError>(VmError::InvalidPte)))
            &&& p.pages[n].data == m.pages[n].data
            &&& p.user(n)
            &&& p.pages.dom() == m.pages.dom()
            &&& forall|k: int| k != n ==> #[trigger] p.pages[k] == m.pages[k]
        }),
{
    let (p, _) = m.set_writeable(va, false)->0;
    let n = va / (PGSIZE as int);
    let flags = m.pages[n].flags;
    assert(round_down(va) == va);
    assert((flags & !4u64) & 4 == 0 && (flags & !4u64) & 16 == flags & 16 && (flags & !4u64) & 256
        == flags & 256) by (bit_vector);
    assert(p.pages.dom() =~= m.pages.dom());
    assert(p.user(n));
}

/// A page that was writable is as it was when it is made read-only and writable again.
pub proof fn law_unprotect(m: UserMem, va: int)
    requires
        0 <= va,
        m.set_writeable(va, false) matches Some((_, Ok(_))),
        flag(m.pages[va / (PGSIZE as int)].flags, PTE_W),
        leaf(m.pages[va / (PGSIZE as int)].flags),
    ensures
        (m.set_writeable(va, false)->0).0.set_writeable(va, true) == Some((m, Ok::<(), VmError>(()))),
{
    let (p, _) = m.set_writeable(va, false)->0;
    let n = va / (PGSIZE as int);
    let flags = m.pages[n].flags;
    assert((flags & 4 != 0 ==> (flags & !4u64) | 4 == flags) && (flags & !4u64) & 16 == flags & 16)
        by (bit_vector);
    let (q, _) = p.set_writeable(va, true)->0;
    assert(q.pages =~= m.pages);
}

/// Using the null pointer, or anything else in the first page, is an error in every process.
pub proof fn law_null_pointer(m: UserMem, size: int, va: int)
    requires
        va < PGSIZE,
    ensures
        m.fault(size, va) == Some((m, Err::<(), VmError>(VmError::InvalidAddress))),
{
}

/// Growing a process and shrinking it again gives the same size, and the pages that it had are
/// what they were.
pub proof fn law_grow_and_shrink(m: UserMem, size: u64, n: i64)
    requires
        n > 0,
        size + n <= u64::MAX - 2 * PGSIZE,
        m.can_deallocate(size + n, size as int),
    ensures
        ({
            let (grown, more, r) = m.resize(size, n, true)->0;
            let (back, less, q) = grown.resize(more, (-n) as i64, true)->0;
            &&& m.resize(size, n, true) is Some && grown.resize(more, (-n) as i64, true) is Some
            &&& r == Ok::<u64, KernelError>(more) && more == size + n
            &&& q == Ok::<u64, KernelError>(size) && less == size
            &&& forall|k: int|
                k < round_up(size as int) / (PGSIZE as int) ==> (#[trigger] back.pages.contains_key(k)
                    == m.pages.contains_key(k)) && back.pages[k] == m.pages[k]
        }),
{
    let (grown, more, r) = m.resize(size, n, true)->0;
    let first = round_up(size as int) / (PGSIZE as int);
    let end = round_up(more as int) / (PGSIZE as int);
    if first < end {
        lemma_unmap_above(m, first, (end - first) as nat);
    }
}

proof fn lemma_unmap_above(m: UserMem, n: int, count: nat)
    ensures
        forall|k: int|
            k < n ==> (#[trigger] m.unmap(n, count).pages.contains_key(k) == m.pages.contains_key(k))
                && m.unmap(n, count).pages[k] == m.pages[k],
    decreases count,
{
    if count > 0 {
        let next = m.drop_page(n);
        lemma_unmap_above(next, n + 1, (count - 1) as nat);
        assert forall|k: int| k < n implies (#[trigger] m.unmap(n, count).pages.contains_key(k)
            == m.pages.contains_key(k)) && m.unmap(n, count).pages[k] == m.pages[k] by {
            assert(next.unmap(n + 1, (count - 1) as nat).pages.contains_key(k)
                == next.pages.contains_key(k));
        }
    }
}

/// How many of the `m` pages from page `a` on lie below page `n`.
pub open spec fn pages_below(a: int, m: int, n: int) -> int {
    if n <= a {
        0
    } else if n <= a + m {
        n - a
    } else {
        m
    }
}

/// The entry of page `i` is new if it is one of the `m` pages from `a` on, and else as it was.
spec fn entry_added(
    v0: PageTable,
    k0: KmemState,
    v1: PageTable,
    k1: KmemState,
    a: int,
    m: int,
    i: int,
) -> bool {
    let pte = v1.entry(k1, i * PGSIZE);
    if a <= i < a + m {
        !flag(v0.entry(k0, i * PGSIZE), PTE_V) && flag(pte, PTE_V) && leaf(pte)
    } else {
        pte == v0.entry(k0, i * PGSIZE)
    }
}

proof fn lemma_used_grows(
    v0: PageTable,
    k0: KmemState,
    v1: PageTable,
    k1: KmemState,
    a: int,
    m: int,
    n: int,
)
    requires
        0 <= a,
        0 <= m,
        0 <= n,
        forall|i: int| 0 <= i ==> #[trigger] entry_added(v0, k0, v1, k1, a, m, i),
    ensures
        v1.used_below(k1, n) == v0.used_below(k0, n) + pages_below(a, m, n),
    decreases n,
{
    if n > 0 {
        lemma_used_grows(v0, k0, v1, k1, a, m, n - 1);
        assert(entry_added(v0, k0, v1, k1, a, m, n - 1));
    }
}

/// `walk_used` counts each page that `map_pages` adds once: after the `m` pages that it mapped, all
/// of them if it reported no error, the count is larger by `m`.
pub proof fn law_used_grows(
    v0: PageTable,
    k0: KmemState,
    v1: PageTable,
    k1: KmemState,
    va: u64,
    pa: u64,
    size: u64,
    perm: u64,
)
    requires
        va % PGSIZE == 0,
        size % PGSIZE == 0,
        perm & (PTE_X | PTE_W | PTE_R) != 0,
        forall|a: int| va <= a < va + size ==> !flag(#[trigger] v0.entry(k0, a), PTE_V),
        ({
            let m = v0.shape().map_run(va as int, (size / PGSIZE) as nat, k0.free.len()).2;
            forall|a: int|
                0 <= a ==> #[trigger] v1.entry(k1, a) == (if va <= a < va + m * PGSIZE {
                    entry_of((pa + (a - va) / (PGSIZE as int) * PGSIZE) as u64) | perm | PTE_V
                } else {
                    v0.entry(k0, a)
                })
        }),
    ensures
        ({
            let (s, f, m, r) = v0.shape().map_run(
                va as int,
                (size / PGSIZE) as nat,
                k0.free.len(),
            );
            &&& v1.used_below(k1, 0x800_0000) == v0.used_below(k0, 0x800_0000) + m
            &&& r is Ok ==> m == size / PGSIZE
        }),
{
    let n = (size / PGSIZE) as nat;
    let m = v0.shape().map_run(va as int, n, k0.free.len()).2;
    lemma_map_run(v0.shape(), va as int, n, k0.free.len());
    lemma_map_run_below(v0.shape(), va as int, n, k0.free.len());
    let a = va as int / PGSIZE as int;
    assert forall|i: int| 0 <= i implies #[trigger] entry_added(
        v0,
        k0,
        v1,
        k1,
        a,
        m as int,
        i,
    ) by {
        let at = i * PGSIZE;
        assert(a <= i < a + m <==> va <= at < va + m * PGSIZE);
        if a <= i < a + m {
            assert(at < va + size);
            let e = entry_of((pa + (at - va) / (PGSIZE as int) * PGSIZE) as u64);
            assert(perm & (8u64 | 4 | 2) != 0 ==> (e | perm | 1) & (8u64 | 4 | 2) != 0 && (e | perm | 1)
                & 1 != 0) by (bit_vector);
        }
    }
    lemma_used_grows(v0, k0, v1, k1, a, m as int, 0x800_0000);
}

/// Pages are mapped below the highest address only.
proof fn lemma_map_run_below(s: Shape, va: int, n: nat, free: nat)
    ensures
        s.map_run(va, n, free).2 > 0 ==> va + (s.map_run(va, n, free).2 - 1) * PGSIZE < MAXVA,
    decreases n,
{
    if n > 0 && va < MAXVA {
        let (s1, f1, ok) = s.grow(va, free);
        lemma_map_run_below(s1, va + PGSIZE, (n - 1) as nat, f1);
    }
}

} // verus!
