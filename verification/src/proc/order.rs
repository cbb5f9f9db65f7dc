//! The memory of all processes together: who owns which frames, and how often they are counted.
use vstd::prelude::*;
use vstd::set_lib::{lemma_int_range, lemma_len_subset, set_int_range};
use crate::error::KernelError;
use crate::exec::run::executed;
use crate::exec::ExecError;
use crate::file::{File, FilesState};
use crate::fs::table::FsState;
use crate::kalloc::KmemState;
use crate::param::{NOFILE, NPROC};
use crate::proc::table::ProcTable;
use crate::proc::exit::{exited, released_all};
use crate::proc::fork::{forked, recovered, spared, split};
use crate::proc::laws::lemma_zombie;
use crate::proc::wait::{same_pages, waited, Waited};
use crate::proc::{Code, Pid, Proc, ProcData};
use crate::riscv::{page_of, PTE_W};
use crate::vm::{flag, VA};
use crate::vm::usermem::UPAGES;
use crate::vm::uvm::{kmem_ok, Uvm};

verus! {

impl ProcData {
    /// Seen from `self`, the memory of `other` is its own but for pages that `self` cannot write.
    #[verifier::opaque]
    pub open spec fn beside(self, other: ProcData, k: KmemState) -> bool {
        let u = self.pagetable->0;
        let v = other.pagetable->0;
        &&& forall|q: u64| #[trigger] u.0.is_node(q) ==> !v.owns(k, q)
        &&& forall|q: u64| #[trigger] u.owns(k, q) && v.owns(k, q) ==> !u.writes(k, q)
        &&& !v.owns(k, self.trapframe->0.pa)
        &&& self.trapframe->0.pa != other.trapframe->0.pa
    }
}

/// Process `i` has memory.
pub open spec fn live(ds: Seq<ProcData>, i: int) -> bool {
    0 <= i < ds.len() && ds[i].pagetable is Some
}

/// The processes that own the frame `q`.
pub open spec fn owners(ds: Seq<ProcData>, k: KmemState, q: u64) -> Set<int> {
    set_int_range(0, ds.len() as int).filter(
        |i: int| live(ds, i) && ds[i].pagetable->0.owns(k, q),
    )
}

/// The frame `q` is counted at least as often as there are processes that own it.
pub open spec fn counted(ds: Seq<ProcData>, k: KmemState, q: u64) -> bool {
    owners(ds, k, q).len() > 0 ==> k.frames[q].refs >= owners(ds, k, q).len()
}

/// The memory of all processes is in order: each has its own tables and trap frame, a page that
/// two of them have neither can write, and no page is given back while a process has it.
#[verifier::opaque]
pub open spec fn in_order(ds: Seq<ProcData>, k: KmemState) -> bool {
    &&& forall|i: int| #[trigger] live(ds, i) ==> ds[i].settled(k)
    &&& forall|i: int, j: int|
        #![trigger live(ds, i), live(ds, j)]
        live(ds, i) && live(ds, j) && i != j ==> ds[i].beside(ds[j], k)
    &&& forall|q: u64| #[trigger] counted(ds, k, q)
}

proof fn lemma_owners(p: Seq<ProcData>, k: KmemState, q: u64)
    ensures
        owners(p, k, q).finite(),
        forall|i: int| #[trigger]
            owners(p, k, q).contains(i) == (live(p, i) && p[i].pagetable->0.owns(k, q)),
{
    lemma_int_range(0, p.len() as int);
    lemma_len_subset(owners(p, k, q), set_int_range(0, p.len() as int));
}

/// A frame that two processes own has at least two references.
proof fn lemma_two(p: Seq<ProcData>, k: KmemState, i: int, j: int, q: u64)
    requires
        in_order(p, k),
        live(p, i),
        live(p, j),
        i != j,
        p[i].pagetable->0.owns(k, q),
        p[j].pagetable->0.owns(k, q),
    ensures
        k.frames[q].refs >= 2,
        !p[i].pagetable->0.writes(k, q),
{
    reveal(in_order);
    reveal(ProcData::beside);
    lemma_owners(p, k, q);
    let two = set![i, j];
    assert(two.subset_of(owners(p, k, q)));
    lemma_len_subset(two, owners(p, k, q));
    assert(two.len() == 2) by {
        assert(two =~= Set::empty().insert(i).insert(j));
    }
    assert(counted(p, k, q));
    assert(p[i].beside(p[j], k));
}

/// A process that was not touched: every frame that it owns has the same contents, its tables and
/// trap frame are as they were, and its reserved pages lead where they did.
#[verifier::opaque]
pub open spec fn left_alone(d: ProcData, k0: KmemState, k1: KmemState) -> bool {
    &&& d.settled(k1)
    &&& forall|q: u64| #[trigger] d.pagetable->0.owns(k1, q) == d.pagetable->0.owns(k0, q)
    &&& forall|q: u64| #[trigger] d.pagetable->0.writes(k1, q) == d.pagetable->0.writes(k0, q)
    &&& same_pages(d.mem(k0), d.mem(k1))
    &&& d.pagetable->0.same_reserved(k0, d.pagetable->0, k1)
}

pub(crate) proof fn lemma_left_alone(d: ProcData, k0: KmemState, k1: KmemState)
    requires
        d.settled(k0),
        kmem_ok(k0),
        forall|q: u64| #[trigger]
            d.pagetable->0.owns(k0, q) ==> k1.frames.contains_key(q) && k1.frames[q].content
                == k0.frames[q].content,
        forall|q: u64| #[trigger]
            (d.pagetable->0).0.is_node(q) ==> k1.frames[q].refs == k0.frames[q].refs,
        k1.frames.contains_key(d.trapframe->0.pa),
        k1.frames[d.trapframe->0.pa].refs == 1,
    ensures
        left_alone(d, k0, k1),
{
    reveal(left_alone);
    let v = d.pagetable->0;
    v.lemma_owns(k0);
    v.lemma_recounted(k0, k1);
    assert(!v.owns(k1, d.trapframe->0.pa));
    assert forall|n: int| #[trigger] d.mem(k1).pages.contains_key(n) implies d.mem(
        k0,
    ).pages.contains_key(n) by {
        assert(d.mem(k1).pages.dom().contains(n));
    }
    assert(d.mem(k0).pages.dom().contains(UPAGES as int));
    assert(d.mem(k1).pages.contains_key(UPAGES as int));
    assert forall|q: u64| #[trigger] v.writes(k1, q) == v.writes(k0, q) by {
        if v.writes(k1, q) {
            let m = choose|m: int| #[trigger]
                v.maps(k1, m) && page_of(v.pte(k1, m)) == q && flag(v.pte(k1, m), PTE_W);
            assert(v.maps(k0, m) && v.pte(k1, m) == v.pte(k0, m));
        }
        if v.writes(k0, q) {
            let m = choose|m: int| #[trigger]
                v.maps(k0, m) && page_of(v.pte(k0, m)) == q && flag(v.pte(k0, m), PTE_W);
            assert(v.maps(k1, m) && v.pte(k1, m) == v.pte(k0, m));
        }
    }
}

/// Two processes that were not touched are still beside each other.
proof fn lemma_still_beside(a: ProcData, b: ProcData, k0: KmemState, k1: KmemState)
    requires
        a.beside(b, k0),
        left_alone(a, k0, k1),
        left_alone(b, k0, k1),
    ensures
        a.beside(b, k1),
{
    reveal(left_alone);
    reveal(ProcData::beside);
}

/// What process `i` does to its own memory leaves that of the others alone.
proof fn lemma_others_alone(p: Seq<ProcData>, i: int, j: int, v: Uvm, k0: KmemState, k1: KmemState)
    requires
        in_order(p, k0),
        live(p, i),
        live(p, j),
        i != j,
        kmem_ok(k0),
        p[i].pagetable->0.apart(k0, v, k1),
    ensures
        left_alone(p[j], k0, k1),
{
    let u = p[i].pagetable->0;
    let d = p[j];
    let w = d.pagetable->0;
    reveal(in_order);
    assert(d.settled(k0) && p[i].settled(k0));
    assert(d.beside(p[i], k0));
    w.lemma_owns(k0);
    assert forall|q: u64| #[trigger] w.owns(k0, q) implies k1.frames.contains_key(q)
        && k1.frames[q].content == k0.frames[q].content by {
        assert(u.frame_apart(k0, v, k1, q));
        if u.owns(k0, q) {
            lemma_two(p, k0, i, j, q);
        }
    }
    reveal(ProcData::beside);
    assert forall|q: u64| #[trigger] w.0.is_node(q) implies k1.frames[q].refs == k0.frames[q].refs by {
        assert(w.owns(k0, q));
        assert(u.frame_apart(k0, v, k1, q));
    }
    let pa = d.trapframe->0.pa;
    assert(u.frame_apart(k0, v, k1, pa));
    lemma_left_alone(d, k0, k1);
}

/// Only process `i` has other memory, and the same trap frame.
pub open spec fn only_changed(p0: Seq<ProcData>, p1: Seq<ProcData>, i: int) -> bool {
    &&& live(p0, i)
    &&& live(p1, i)
    &&& p1.len() == p0.len()
    &&& forall|j: int|
        0 <= j < p0.len() && j != i ==> #[trigger] p1[j] == p0[j]
    &&& p0[i].trapframe is Some
    &&& p1[i].trapframe is Some
    &&& p1[i].trapframe->0.pa == p0[i].trapframe->0.pa
}

/// Whatever a process does to its own memory, by faults and by system calls, the memory of all
/// processes stays in order, and the others see nothing of it.
pub proof fn law_memory_in_order(p0: Seq<ProcData>, p1: Seq<ProcData>, i: int, k0: KmemState, k1: KmemState)
    requires
        kmem_ok(k0),
        kmem_ok(k1),
        in_order(p0, k0),
        only_changed(p0, p1, i),
        p1[i].settled(k1),
        p0[i].pagetable->0.apart(k0, p1[i].pagetable->0, k1),
    ensures
        in_order(p1, k1),
        forall|j: int| #[trigger] live(p0, j) && j != i ==> left_alone(p0[j], k0, k1),
{
    let v = p1[i].pagetable->0;
    assert forall|j: int| #[trigger] live(p0, j) && j != i implies left_alone(
        p0[j],
        k0,
        k1,
    ) by {
        lemma_others_alone(p0, i, j, v, k0, k1);
    }
    assert forall|j: int| #[trigger] live(p1, j) == live(p0, j) by {}
    assert forall|j: int| #[trigger] live(p1, j) implies p1[j].settled(k1) by {
        if j != i {
            assert(live(p0, j));
            reveal(left_alone);
        }
    }
    assert forall|a: int, b: int|
        #![trigger live(p1, a), live(p1, b)]
        live(p1, a) && live(p1, b) && a != b implies p1[a].beside(
        p1[b],
        k1,
    ) by {
        assert(live(p0, a) && live(p0, b));
        assert(p0[a].beside(p0[b], k0)) by {
            reveal(in_order);
        }
        if a != i && b != i {
            lemma_still_beside(p0[a], p0[b], k0, k1);
        } else if a == i {
            lemma_step_beside(p0, p1, i, b, k0, k1);
        } else {
            lemma_step_beside(p0, p1, i, a, k0, k1);
        }
    }
    assert forall|q: u64| #[trigger] counted(p1, k1, q) by {
        lemma_step_counted(p0, p1, i, k0, k1, q);
    }
    reveal(in_order);
}

/// The process that changed and another one are beside each other.
proof fn lemma_step_beside(p0: Seq<ProcData>, p1: Seq<ProcData>, i: int, j: int, k0: KmemState, k1: KmemState)
    requires
        kmem_ok(k0),
        kmem_ok(k1),
        in_order(p0, k0),
        only_changed(p0, p1, i),
        p1[i].settled(k1),
        p0[i].pagetable->0.apart(k0, p1[i].pagetable->0, k1),
        live(p0, j),
        j != i,
        left_alone(p0[j], k0, k1),
    ensures
        p1[i].beside(p1[j], k1),
        p1[j].beside(p1[i], k1),
{
    reveal(in_order);
    reveal(ProcData::beside);
    reveal(left_alone);
    let d0 = p0[i];
    let d1 = p1[i];
    let e = p0[j];
    assert(p1[j] == e);
    let u = d0.pagetable->0;
    let v = d1.pagetable->0;
    let w = e.pagetable->0;
    assert(d0.settled(k0) && e.settled(k0));
    w.lemma_owns(k0);
    u.lemma_owns(k0);
    v.lemma_owns(k1);
    assert(d0.beside(e, k0) && e.beside(d0, k0));
    // what both own they owned before
    assert forall|q: u64| #[trigger] v.owns(k1, q) && w.owns(k1, q) implies u.owns(k0, q) && w.owns(
        k0,
        q,
    ) && !v.writes(k1, q) && !w.writes(k1, q) && k0.frames[q].refs >= 2 by {
        assert(w.owns(k0, q));
        assert(k0.frames.contains_key(q));
        assert(!k0.free.contains(q));
        assert(u.owns(k0, q));
        lemma_two(p0, k0, i, j, q);
        lemma_two(p0, k0, j, i, q);
        if v.writes(k1, q) {
            assert(u.writes(k0, q) || u.alone(k0, q));
        }
    }
    assert forall|q: u64| #[trigger] v.0.is_node(q) implies !w.owns(k1, q) by {
        assert(v.owns(k1, q));
        if w.owns(k1, q) {
            v.0.lemma_nodes_live(k1);
            assert(u.frame_apart(k0, v, k1, q));
        }
    }
    assert forall|q: u64| #[trigger] w.0.is_node(q) implies !v.owns(k1, q) by {
        assert(w.owns(k1, q) == w.owns(k0, q));
        if v.owns(k1, q) {
            assert(w.owns(k1, q));
        }
    }
    let pa = d0.trapframe->0.pa;
    let pb = e.trapframe->0.pa;
    assert(w.owns(k1, pa) == w.owns(k0, pa));
    assert(!v.owns(k1, pb)) by {
        if v.owns(k1, pb) {
            assert(u.owns(k0, pb) || k0.free.contains(pb));
        }
    }
}

/// The frame `q` is counted often enough after process `i` changed its memory.
proof fn lemma_step_counted(
    p0: Seq<ProcData>,
    p1: Seq<ProcData>,
    i: int,
    k0: KmemState,
    k1: KmemState,
    q: u64,
)
    requires
        kmem_ok(k0),
        kmem_ok(k1),
        in_order(p0, k0),
        only_changed(p0, p1, i),
        p1[i].settled(k1),
        p0[i].pagetable->0.apart(k0, p1[i].pagetable->0, k1),
        forall|j: int| #[trigger] live(p0, j) && j != i ==> left_alone(p0[j], k0, k1),
    ensures
        counted(p1, k1, q),
{
    reveal(left_alone);
    reveal(in_order);
    let u = p0[i].pagetable->0;
    let v = p1[i].pagetable->0;
    lemma_owners(p0, k0, q);
    lemma_owners(p1, k1, q);
    let o0 = owners(p0, k0, q);
    let o1 = owners(p1, k1, q);
    assert(counted(p0, k0, q));
    assert forall|j: int| j != i implies #[trigger] o1.contains(j) == o0.contains(j) by {
        assert(live(p1, j) == live(p0, j));
        if live(p0, j) {
            assert(left_alone(p0[j], k0, k1));
        }
    }
    if o1.len() > 0 {
        if exists|j: int| j != i && #[trigger] o0.contains(j) {
            let j = choose|j: int| j != i && #[trigger] o0.contains(j);
            let w = p0[j].pagetable->0;
            assert(live(p0, j) && p0[j].settled(k0));
            w.lemma_owns(k0);
            assert(k0.frames.contains_key(q));
            assert(u.frame_apart(k0, v, k1, q));
            assert(o0.len() > 0) by {
                if o0.len() == 0 {
                    assert(o0 =~= Set::empty());
                }
            }
            if u.owns(k0, q) {
                lemma_two(p0, k0, i, j, q);
                if v.owns(k1, q) {
                    assert(o1 =~= o0);
                } else {
                    assert(o1 =~= o0.remove(i));
                }
            } else {
                assert(!v.owns(k1, q));
                assert(o1 =~= o0);
            }
        } else {
            assert(o1.subset_of(set![i]));
            lemma_len_subset(o1, set![i]);
            assert(o1.contains(i)) by {
                if !o1.contains(i) {
                    assert(o1 =~= Set::empty());
                }
            }
            v.lemma_owns(k1);
        }
    }
}

/// Memory that was made of free frames takes the place of memory that was given back.
proof fn lemma_replaced(u: Uvm, v: Uvm, k0: KmemState, k: KmemState, k1: KmemState)
    requires
        kmem_ok(k0),
        kmem_ok(k),
        kmem_ok(k1),
        u.wf(k0),
        v.wf(k),
        v.made_from(k, k0),
        u.all_freed(k, k1),
    ensures
        u.apart(k0, v, k1),
{
    u.lemma_owns(k0);
    u.lemma_untouched(k0, k);
    v.lemma_owns(k);
    assert forall|q: u64| #[trigger] v.owns(k, q) implies k1.frames.contains_key(q) && k1.frames[q]
        == k.frames[q] by {
        assert(k0.free.contains(q));
        assert(!u.owns(k, q));
        assert(u.frame_freed(k, k1, q));
    }
    v.lemma_untouched(k, k1);
    assert forall|q: u64| #[trigger] k0.frames.contains_key(q) implies u.frame_apart(
        k0,
        v,
        k1,
        q,
    ) by {
        assert(k.frames.contains_key(q) && k.frames[q] == k0.frames[q]);
        assert(u.frame_freed(k, k1, q));
        if v.owns(k1, q) {
            assert(v.owns(k, q));
        }
        if u.writes(k, q) {
            let m = choose|m: int| #[trigger]
                u.maps(k, m) && page_of(u.pte(k, m)) == q && flag(u.pte(k, m), PTE_W);
            assert(u.maps(k0, m) && u.pte(k, m) == u.pte(k0, m));
            assert(u.writes(k0, q));
        }
    }
    assert forall|q: u64| #[trigger] v.owns(k1, q) implies u.owns(k0, q) || (k0.free.contains(q)
        && k1.frames.contains_key(q) && k1.frames[q].refs == 1) by {
        assert(v.owns(k, q));
    }
    assert forall|q: u64| #[trigger] v.writes(k1, q) implies u.writes(k0, q) || u.alone(k0, q) by {
        let m = choose|m: int| #[trigger]
            v.maps(k1, m) && page_of(v.pte(k1, m)) == q && flag(v.pte(k1, m), PTE_W);
        assert(v.maps(k, m) && v.pte(k1, m) == v.pte(k, m));
        assert(v.owns(k, q));
    }
    assert forall|q: u64| #[trigger] k1.free.contains(q) implies u.alone(k0, q) by {
        assert(u.alone(k, q));
        if !k.free.contains(q) {
            assert(u.owns(k0, q));
            assert(k0.frames.contains_key(q));
        }
    }
    assert forall|q: u64| #[trigger] k0.free.contains(q) implies k1.free.contains(q) || v.owns(
        k1,
        q,
    ) by {
        if !k.free.contains(q) {
            assert(v.owns(k, q));
        }
    }
}

/// A program that is executed, or is not, leaves the memory of all processes in order, and that of
/// the others alone.
pub proof fn law_exec_in_order(
    p0: Seq<ProcData>,
    p1: Seq<ProcData>,
    i: int,
    s0: FsState,
    k0: KmemState,
    path: Seq<u8>,
    argv: Seq<Seq<u8>>,
    trampoline: u64,
    s1: FsState,
    k1: KmemState,
    r: Result<u64, ExecError>,
)
    requires
        kmem_ok(k0),
        kmem_ok(k1),
        in_order(p0, k0),
        only_changed(p0, p1, i),
        executed(s0, p0[i], k0, path, argv, trampoline, s1, p1[i], k1, r),
    ensures
        in_order(p1, k1),
        forall|j: int| #[trigger] live(p0, j) && j != i ==> left_alone(p0[j], k0, k1),
{
    let d0 = p0[i];
    let d1 = p1[i];
    assert(d0.settled(k0)) by {
        reveal(in_order);
    }
    lemma_exec_frames(d0, d1, s0, k0, path, argv, trampoline, s1, k1, r);
    if r is Ok {
        let k = choose|k: KmemState| #[trigger]
            d1.pagetable->0.made_from(k, k0) && kmem_ok(k) && d1.pagetable->0.wf(k)
                && d0.pagetable->0.all_freed(k, k1);
        lemma_replaced(d0.pagetable->0, d1.pagetable->0, k0, k, k1);
        law_memory_in_order(p0, p1, i, k0, k1);
    } else {
        assert(k1.keeps(k0));
        lemma_keeps(p0, k0, k1);
        lemma_kept_in_order(p0, p1, k0, k1);
    }
}

/// What a program that is executed, or is not, means for frames.
pub(crate) proof fn lemma_exec_frames(
    d0: ProcData,
    d1: ProcData,
    s0: FsState,
    k0: KmemState,
    path: Seq<u8>,
    argv: Seq<Seq<u8>>,
    trampoline: u64,
    s1: FsState,
    k1: KmemState,
    r: Result<u64, ExecError>,
)
    requires
        executed(s0, d0, k0, path, argv, trampoline, s1, d1, k1, r),
    ensures
        r is Ok ==> d1.settled(k1) && exists|k: KmemState| #[trigger]
            d1.pagetable->0.made_from(k, k0) && kmem_ok(k) && d1.pagetable->0.wf(k)
                && d0.pagetable->0.all_freed(k, k1),
        r is Err ==> k1.keeps(k0) && d1 == d0,
{
    reveal(executed);
}

/// The same memory.
pub open spec fn same_memory(a: ProcData, b: ProcData) -> bool {
    a.pagetable == b.pagetable && a.trapframe == b.trapframe && a.size == b.size
}

/// The frame `q` is used by a process.
pub open spec fn uses(d: ProcData, k: KmemState, q: u64) -> bool {
    d.pagetable->0.owns(k, q) || d.trapframe->0.pa == q
}

/// The frames that processes use in `k0` are as they were.
#[verifier::opaque]
pub open spec fn used_kept(ds: Seq<ProcData>, k0: KmemState, k1: KmemState) -> bool {
    forall|j: int, q: u64|
        live(ds, j) && #[trigger] uses(ds[j], k0, q) ==> k1.frames.contains_key(q) && k1.frames[q]
            == k0.frames[q]
}

/// Where all frames that processes use are as they were, all processes are.
pub(crate) proof fn lemma_kept_in_order(p0: Seq<ProcData>, p1: Seq<ProcData>, k0: KmemState, k1: KmemState)
    requires
        kmem_ok(k0),
        in_order(p0, k0),
        used_kept(p0, k0, k1),
        p1.len() == p0.len(),
        forall|j: int| #[trigger] live(p1, j) == live(p0, j),
        forall|j: int| #[trigger] live(p0, j) ==> same_memory(p0[j], p1[j]),
    ensures
        in_order(p1, k1),
        forall|j: int| #[trigger] live(p0, j) ==> left_alone(p0[j], k0, k1),
{
    reveal(in_order);
    assert forall|j: int| #[trigger] live(p0, j) implies left_alone(p0[j], k0, k1) by {
        let w = p0[j].pagetable->0;
        w.lemma_owns(k0);
        let pa = p0[j].trapframe->0.pa;
        reveal(used_kept);
        assert(uses(p0[j], k0, pa));
        assert forall|q: u64| #[trigger] w.owns(k0, q) implies k1.frames.contains_key(q)
            && k1.frames[q].content == k0.frames[q].content by {
            assert(uses(p0[j], k0, q));
        }
        assert forall|q: u64| #[trigger] w.0.is_node(q) implies k1.frames[q].refs
            == k0.frames[q].refs by {
            assert(w.owns(k0, q));
            assert(uses(p0[j], k0, q));
        }
        lemma_left_alone(p0[j], k0, k1);
    }
    assert forall|a: int, b: int|
        #![trigger live(p1, a), live(p1, b)]
        live(p1, a) && live(p1, b) && a != b implies p1[a].beside(p1[b], k1) by {
        assert(live(p0, a) && live(p0, b));
        lemma_still_beside(p0[a], p0[b], k0, k1);
        reveal(ProcData::beside);
    }
    assert forall|q: u64| #[trigger] counted(p1, k1, q) by {
        lemma_owners(p0, k0, q);
        lemma_owners(p1, k1, q);
        assert(counted(p0, k0, q));
        reveal(left_alone);
        assert forall|j: int| #[trigger] owners(p1, k1, q).contains(j) == owners(
            p0,
            k0,
            q,
        ).contains(j) by {
            assert(live(p1, j) == live(p0, j));
            if live(p0, j) {
                assert(left_alone(p0[j], k0, k1));
            }
        }
        assert(owners(p1, k1, q) =~= owners(p0, k0, q));
        if owners(p0, k0, q).len() > 0 {
            let j = owners(p0, k0, q).choose();
            assert(owners(p0, k0, q).contains(j));
            assert(live(p0, j) && p0[j].pagetable->0.owns(k0, q));
            reveal(used_kept);
            assert(uses(p0[j], k0, q));
        }
    }
    assert forall|j: int| #[trigger] live(p1, j) implies p1[j].settled(k1) by {
        assert(live(p0, j));
        reveal(left_alone);
    }
}

/// All that a process had is given back: the others do not notice, and stay in order.
proof fn lemma_gone_in_order(p0: Seq<ProcData>, p1: Seq<ProcData>, c: int, k0: KmemState, k1: KmemState)
    requires
        kmem_ok(k0),
        kmem_ok(k1),
        in_order(p0, k0),
        live(p0, c),
        p1.len() == p0.len(),
        !live(p1, c),
        forall|j: int|
            0 <= j < p0.len() && j != c ==> #[trigger] p1[j] == p0[j],
        p0[c].gone(k0, k1),
    ensures
        in_order(p1, k1),
        forall|j: int| #[trigger] live(p0, j) && j != c ==> left_alone(p0[j], k0, k1),
{
    reveal(in_order);
    let d = p0[c];
    let u = d.pagetable->0;
    let pa = d.trapframe->0.pa;
    let km = k0.released(pa);
    u.lemma_owns(k0);
    u.lemma_untouched(k0, km);
    // what others own is there, with the same contents, and counted once less if it was shared
    assert forall|j: int, q: u64| #[trigger] live(p0, j) && j != c && #[trigger] p0[j].pagetable->0.owns(k0, q) implies k1.frames.contains_key(q) && k1.frames[q].content
        == k0.frames[q].content && k1.frames[q].refs == k0.frames[q].refs - (if u.owns(k0, q) {
        1int
    } else {
        0int
    }) by {
        let w = p0[j].pagetable->0;
        assert(p0[j].settled(k0));
        w.lemma_owns(k0);
        assert(k0.frames.contains_key(q));
        assert(d.beside(p0[j], k0));
        assert(q != pa) by {
            reveal(ProcData::beside);
        }
        assert(km.frames.contains_key(q) && km.frames[q] == k0.frames[q]);
        assert(u.frame_freed(km, k1, q));
        if u.owns(k0, q) {
            lemma_two(p0, k0, c, j, q);
            if u.writes(km, q) {
                let m = choose|m: int| #[trigger]
                    u.maps(km, m) && page_of(u.pte(km, m)) == q && flag(u.pte(km, m), PTE_W);
                assert(u.maps(k0, m) && u.pte(km, m) == u.pte(k0, m));
                assert(u.writes(k0, q));
            }
        }
    }
    assert forall|j: int| #[trigger] live(p0, j) && j != c implies left_alone(
        p0[j],
        k0,
        k1,
    ) by {
        let e = p0[j];
        let w = e.pagetable->0;
        assert(e.beside(d, k0));
        reveal(ProcData::beside);
        assert forall|q: u64| #[trigger] w.0.is_node(q) implies k1.frames[q].refs
            == k0.frames[q].refs by {
            assert(w.owns(k0, q));
        }
        let pb = e.trapframe->0.pa;
        assert(pb != pa && !u.owns(k0, pb));
        assert(km.frames.contains_key(pb) && km.frames[pb] == k0.frames[pb]);
        assert(!u.owns(km, pb));
        assert(u.frame_freed(km, k1, pb));
        lemma_left_alone(e, k0, k1);
    }
    assert forall|j: int| #[trigger] live(p1, j) implies live(p0, j) && j != c by {}
    assert forall|a: int, b: int|
        #![trigger live(p1, a), live(p1, b)]
        live(p1, a) && live(p1, b) && a != b implies p1[a].beside(
        p1[b],
        k1,
    ) by {
        assert(live(p0, a) && live(p0, b));
        lemma_still_beside(p0[a], p0[b], k0, k1);
    }
    assert forall|q: u64| #[trigger] counted(p1, k1, q) by {
        lemma_owners(p0, k0, q);
        lemma_owners(p1, k1, q);
        assert(counted(p0, k0, q));
        reveal(left_alone);
        let o0 = owners(p0, k0, q);
        let o1 = owners(p1, k1, q);
        assert forall|j: int| #[trigger] o1.contains(j) == (o0.contains(j) && j != c) by {
            if j != c {
                assert(live(p1, j) == live(p0, j));
                if live(p0, j) {
                    assert(left_alone(p0[j], k0, k1));
                }
            }
        }
        assert(o1 =~= o0.remove(c));
        if o1.len() > 0 {
            let j = o1.choose();
            assert(o1.contains(j));
            assert(live(p0, j) && j != c && p0[j].pagetable->0.owns(k0, q));
            assert(o0.contains(j));
            assert(o0.len() > 0) by {
                if o0.len() == 0 {
                    assert(o0 =~= Set::empty());
                }
            }
        }
    }
    assert forall|j: int| #[trigger] live(p1, j) implies p1[j].settled(k1) by {
        assert(live(p0, j));
        reveal(left_alone);
    }
}

/// The data of all processes.
pub open spec fn all_data(p: ProcTable) -> Seq<ProcData> {
    p.table@.map_values(|p: Proc| p.data)
}

/// Waiting leaves the memory of all processes in order, and that of all but the parent and the
/// child alone.
pub proof fn law_wait_in_order(
    p0: ProcTable,
    k0: KmemState,
    id: usize,
    addr: VA,
    p1: ProcTable,
    k1: KmemState,
    r: Waited,
)
    requires
        p0.wf(),
        p1.wf(),
        kmem_ok(k0),
        kmem_ok(k1),
        in_order(all_data(p0), k0),
        live(all_data(p0), id as int),
        p0.zombie(id, 0) < NPROC ==> live(all_data(p0), p0.zombie(id, 0)) && p0.zombie(id, 0) != id,
        waited(p0, k0, id, addr, p1, k1, r),
    ensures
        in_order(all_data(p1), k1),
        forall|i: int| #[trigger]
            live(all_data(p0), i) && i != id && i != p0.zombie(id, 0) ==> left_alone(
                all_data(p0)[i],
                k0,
                k1,
            ),
{
    reveal(waited);
    let j = p0.zombie(id, 0);
    let a = all_data(p0);
    let b = all_data(p1);
    if j < NPROC {
        lemma_zombie(p0, id, 0);
        let d0 = a[id as int];
        let d = b[id as int];
        let c = a[j];
        let k = choose|k: KmemState| #[trigger]
            d0.touched(k0, d, k) && kmem_ok(k) && d.settled(k) && c.settled(k) && c.gone(k, k1);
        // first the parent changes its memory, then the child is gone
        let mid = a.update(id as int, d);
        assert(d0.settled(k0)) by {
            reveal(in_order);
        }
        law_memory_in_order(a, mid, id as int, k0, k);
        lemma_gone_in_order(mid, b, j, k, k1);
        assert forall|i: int| #[trigger] live(a, i) && i != id && i != j implies left_alone(
            a[i],
            k0,
            k1,
        ) by {
            assert(live(mid, i));
            lemma_alone_trans(a[i], k0, k, k1);
        }
    } else {
        assert(a =~= b);
        reveal(in_order);
        assert forall|i: int| #[trigger] live(a, i) implies left_alone(a[i], k0, k1) by {
            reveal(left_alone);
        }
    }
}

pub(crate) proof fn lemma_alone_trans(d: ProcData, k0: KmemState, k: KmemState, k1: KmemState)
    requires
        left_alone(d, k0, k),
        left_alone(d, k, k1),
    ensures
        left_alone(d, k0, k1),
{
    reveal(left_alone);
    assert forall|q: u64| #[trigger] d.pagetable->0.owns(k1, q) == d.pagetable->0.owns(k0, q) by {
        assert(d.pagetable->0.owns(k, q) == d.pagetable->0.owns(k0, q));
    }
    assert forall|q: u64| #[trigger] d.pagetable->0.writes(k1, q) == d.pagetable->0.writes(k0, q) by {
        assert(d.pagetable->0.writes(k, q) == d.pagetable->0.writes(k0, q));
    }
    assert forall|n: int| #[trigger] d.mem(k0).pages.contains_key(n) implies d.mem(k0).pages[n].flags
        == d.mem(k1).pages[n].flags && d.mem(k0).pages[n].data == d.mem(k1).pages[n].data by {
        assert(d.mem(k0).pages.dom().contains(n));
        assert(d.mem(k).pages.contains_key(n));
    }
}

/// The others when process `id` shares its memory, or could not.
proof fn lemma_alone_in_fork(a: Seq<ProcData>, id: int, j: int, k0: KmemState, k1: KmemState)
    requires
        kmem_ok(k0),
        in_order(a, k0),
        live(a, id),
        live(a, j),
        j != id,
        spared(a[id].pagetable->0, k0, k1),
        forall|q: u64| #[trigger]
            a[id].pagetable->0.owns(k0, q) && !(a[id].pagetable->0).0.is_node(q)
                ==> k1.frames.contains_key(q) && k1.frames[q].content == k0.frames[q].content,
    ensures
        left_alone(a[j], k0, k1),
{
    reveal(in_order);
    reveal(ProcData::beside);
    let u = a[id].pagetable->0;
    let w = a[j].pagetable->0;
    assert(a[j].settled(k0));
    assert(a[id].beside(a[j], k0) && a[j].beside(a[id], k0));
    w.lemma_owns(k0);
    assert forall|q: u64| #[trigger] w.owns(k0, q) implies k1.frames.contains_key(q)
        && k1.frames[q].content == k0.frames[q].content by {
        assert(k0.frames.contains_key(q));
        assert(!u.0.is_node(q));
        if u.owns(k0, q) {
        } else {
            assert(k1.frames[q] == k0.frames[q]);
        }
    }
    assert forall|q: u64| #[trigger] w.0.is_node(q) implies k1.frames[q].refs == k0.frames[q].refs by {
        assert(w.owns(k0, q));
        assert(!u.owns(k0, q));
        assert(k0.frames.contains_key(q));
    }
    let pb = a[j].trapframe->0.pa;
    assert(!u.owns(k0, pb));
    assert(k0.frames.contains_key(pb));
    lemma_left_alone(a[j], k0, k1);
}

/// The child `i` of process `id` beside the others.
proof fn lemma_child_beside(
    a: Seq<ProcData>,
    d: ProcData,
    id: int,
    i: int,
    j: int,
    k0: KmemState,
    k1: KmemState,
)
    requires
        forking(a, d, id, i, k0, k1),
        live(a, j),
        j != id ==> left_alone(a[j], k0, k1),
    ensures
        d.beside(a[j], k1),
        a[j].beside(d, k1),
{
    reveal(in_order);
    reveal(ProcData::beside);
    reveal(split);
    reveal(left_alone);
    let u = a[id].pagetable->0;
    let v = d.pagetable->0;
    let w = a[j].pagetable->0;
    assert(a[j].settled(k0) && a[id].settled(k0));
    if j != id {
        assert(a[id].beside(a[j], k0) && a[j].beside(a[id], k0));
    }
    w.lemma_owns(k0);
    u.lemma_owns(k0);
    assert forall|q: u64| #[trigger] w.owns(k1, q) == w.owns(k0, q) by {
        assert(j == id ==> u.owns(k1, q) == u.owns(k0, q));
    }
    assert forall|q: u64| #[trigger] v.0.is_node(q) implies !w.owns(k1, q) by {
        assert(v.owns(k1, q));
        v.0.lemma_nodes_live(k1);
        if w.owns(k1, q) {
            assert(k0.frames.contains_key(q));
            assert(u.owns(k0, q) && !u.0.is_node(q));
            assert(k0.frames[q].refs >= 1);
            assert(k1.frames[q].refs == k0.frames[q].refs + 1);
        }
    }
    assert forall|q: u64| #[trigger] w.0.is_node(q) implies !v.owns(k1, q) by {
        assert(w.owns(k1, q));
        if v.owns(k1, q) {
            assert(k0.frames.contains_key(q));
            assert(u.owns(k0, q) && !u.0.is_node(q));
        }
    }
    assert forall|q: u64| #[trigger] w.owns(k1, q) && v.owns(k1, q) implies !w.writes(k1, q) by {
        assert(k0.frames.contains_key(q));
        if j != id {
            assert(u.owns(k0, q));
            assert(w.owns(k0, q));
            assert(w.writes(k1, q) == w.writes(k0, q));
        }
    }
    let pa = d.trapframe->0.pa;
    let pb = a[j].trapframe->0.pa;
    assert(w.owns(k1, pa) == w.owns(k0, pa));
    assert(k0.frames.contains_key(pb));
    assert(!v.owns(k1, pb)) by {
        if v.owns(k1, pb) {
            assert(u.owns(k0, pb));
        }
    }
}

/// Process `id` has shared its memory with the new process `i`, which is `d`.
spec fn forking(a: Seq<ProcData>, d: ProcData, id: int, i: int, k0: KmemState, k1: KmemState) -> bool {
    &&& kmem_ok(k0)
    &&& kmem_ok(k1)
    &&& in_order(a, k0)
    &&& live(a, id)
    &&& 0 <= i < a.len()
    &&& !live(a, i)
    &&& d.settled(k1)
    &&& a[id].settled(k1)
    &&& split(a[id].pagetable->0, d.pagetable->0, k0, k1)
    &&& k0.free.contains(d.trapframe->0.pa)
}

/// After a fork the memory of all processes is in order.
proof fn lemma_fork_in_order(
    a: Seq<ProcData>,
    d: ProcData,
    id: int,
    i: int,
    k0: KmemState,
    k1: KmemState,
)
    requires
        forking(a, d, id, i, k0, k1),
    ensures
        in_order(a.update(i, d), k1),
        forall|j: int| #[trigger] live(a, j) && j != id ==> left_alone(a[j], k0, k1),
{
    let b = a.update(i, d);
    let u = a[id].pagetable->0;
    assert forall|j: int| #[trigger] live(a, j) && j != id implies left_alone(a[j], k0, k1) by {
        reveal(split);
        lemma_alone_in_fork(a, id, j, k0, k1);
    }
    assert forall|j: int| #[trigger] live(b, j) == (live(a, j) || j == i) by {}
    assert forall|j: int| #[trigger] live(b, j) implies b[j].settled(k1) by {
        if j != i && j != id {
            assert(live(a, j));
            reveal(left_alone);
        }
    }
    assert forall|x: int, y: int|
        #![trigger live(b, x), live(b, y)]
        live(b, x) && live(b, y) && x != y implies b[x].beside(b[y], k1) by {
        if x == i {
            assert(live(a, y));
            lemma_child_beside(a, d, id, i, y, k0, k1);
        } else if y == i {
            assert(live(a, x));
            lemma_child_beside(a, d, id, i, x, k0, k1);
        } else {
            assert(live(a, x) && live(a, y));
            assert(a[x].beside(a[y], k0)) by {
                reveal(in_order);
            }
            if x != id && y != id {
                lemma_still_beside(a[x], a[y], k0, k1);
            } else {
                reveal(split);
                lemma_parent_beside(a[x], a[y], u, x == id, k0, k1);
            }
        }
    }
    assert forall|q: u64| #[trigger] counted(b, k1, q) by {
        lemma_fork_counted(a, d, id, i, k0, k1, q);
    }
    reveal(in_order);
}

/// The parent and another process are still beside each other.
proof fn lemma_parent_beside(
    x: ProcData,
    y: ProcData,
    u: Uvm,
    first: bool,
    k0: KmemState,
    k1: KmemState,
)
    requires
        x.beside(y, k0),
        if first {
            x.pagetable == Some(u) && left_alone(y, k0, k1)
        } else {
            y.pagetable == Some(u) && left_alone(x, k0, k1)
        },
        forall|q: u64| #[trigger] u.owns(k1, q) == u.owns(k0, q),
        forall|q: u64| #[trigger] u.writes(k1, q) ==> u.writes(k0, q),
    ensures
        x.beside(y, k1),
{
    reveal(ProcData::beside);
    reveal(left_alone);
    let a = x.pagetable->0;
    let b = y.pagetable->0;
    assert forall|q: u64| #[trigger] a.owns(k1, q) == a.owns(k0, q) by {}
    assert forall|q: u64| #[trigger] b.owns(k1, q) == b.owns(k0, q) by {}
    assert forall|q: u64| #[trigger] a.0.is_node(q) implies !b.owns(k1, q) by {
        assert(b.owns(k1, q) == b.owns(k0, q));
    }
    assert forall|q: u64| #[trigger] a.owns(k1, q) && b.owns(k1, q) implies !a.writes(k1, q) by {
        assert(a.owns(k0, q) && b.owns(k0, q));
        assert(a.writes(k1, q) ==> a.writes(k0, q));
    }
    assert(b.owns(k1, x.trapframe->0.pa) == b.owns(k0, x.trapframe->0.pa));
}

proof fn lemma_fork_counted(
    a: Seq<ProcData>,
    d: ProcData,
    id: int,
    i: int,
    k0: KmemState,
    k1: KmemState,
    q: u64,
)
    requires
        forking(a, d, id, i, k0, k1),
        forall|j: int| #[trigger] live(a, j) && j != id ==> left_alone(a[j], k0, k1),
    ensures
        counted(a.update(i, d), k1, q),
{
    reveal(in_order);
    reveal(left_alone);
    reveal(split);
    let b = a.update(i, d);
    let u = a[id].pagetable->0;
    let v = d.pagetable->0;
    lemma_owners(a, k0, q);
    lemma_owners(b, k1, q);
    let o0 = owners(a, k0, q);
    let o1 = owners(b, k1, q);
    assert(counted(a, k0, q));
    assert forall|j: int| j != i implies #[trigger] o1.contains(j) == o0.contains(j) by {
        assert(live(b, j) == live(a, j));
        if live(a, j) {
            if j == id {
                assert(u.owns(k1, q) == u.owns(k0, q));
            } else {
                assert(left_alone(a[j], k0, k1));
            }
        }
    }
    assert(!o0.contains(i));
    if o1.len() > 0 {
        if exists|j: int| #[trigger] o0.contains(j) {
            let j = choose|j: int| #[trigger] o0.contains(j);
            assert(live(a, j));
            a[j].pagetable->0.lemma_owns(k0);
            assert(k0.frames.contains_key(q));
            assert(o0.len() > 0) by {
                if o0.len() == 0 {
                    assert(o0 =~= Set::empty());
                }
            }
            if v.owns(k1, q) {
                assert(u.owns(k0, q) && !u.0.is_node(q));
                assert(o1 =~= o0.insert(i));
            } else {
                assert(o1 =~= o0);
                if u.owns(k0, q) {
                    // a page of the parent is the child's too
                    assert(u.0.is_node(q));
                    u.0.lemma_nodes_live(k0);
                    u.0.lemma_nodes_live(k1);
                } else {
                    assert(k1.frames[q] == k0.frames[q]);
                }
            }
        } else {
            assert(o1.subset_of(set![i]));
            lemma_len_subset(o1, set![i]);
            assert(o1.contains(i)) by {
                if !o1.contains(i) {
                    assert(o1 =~= Set::empty());
                }
            }
            v.lemma_owns(k1);
        }
    }
}

/// After a fork that failed the memory of all processes is in order.
proof fn lemma_recovered_in_order(
    a: Seq<ProcData>,
    b: Seq<ProcData>,
    id: int,
    k0: KmemState,
    k1: KmemState,
)
    requires
        kmem_ok(k0),
        kmem_ok(k1),
        in_order(a, k0),
        live(a, id),
        a[id].settled(k1),
        recovered(a[id].pagetable->0, k0, k1),
        b.len() == a.len(),
        forall|j: int| #[trigger] live(b, j) == live(a, j),
        forall|j: int| #[trigger] live(a, j) ==> b[j] == a[j],
    ensures
        in_order(b, k1),
        forall|j: int| #[trigger] live(a, j) && j != id ==> left_alone(a[j], k0, k1),
{
    let u = a[id].pagetable->0;
    assert forall|j: int| #[trigger] live(a, j) && j != id implies left_alone(a[j], k0, k1) by {
        reveal(recovered);
        lemma_alone_in_fork(a, id, j, k0, k1);
    }
    assert forall|j: int| #[trigger] live(b, j) implies b[j].settled(k1) by {
        assert(live(a, j));
        if j != id {
            reveal(left_alone);
        }
    }
    assert forall|x: int, y: int|
        #![trigger live(b, x), live(b, y)]
        live(b, x) && live(b, y) && x != y implies b[x].beside(b[y], k1) by {
        assert(live(a, x) && live(a, y));
        assert(a[x].beside(a[y], k0)) by {
            reveal(in_order);
        }
        if x != id && y != id {
            lemma_still_beside(a[x], a[y], k0, k1);
        } else {
            reveal(recovered);
            lemma_parent_beside(a[x], a[y], u, x == id, k0, k1);
        }
    }
    assert forall|q: u64| #[trigger] counted(b, k1, q) by {
        reveal(in_order);
        reveal(left_alone);
        reveal(recovered);
        lemma_owners(a, k0, q);
        lemma_owners(b, k1, q);
        let o0 = owners(a, k0, q);
        let o1 = owners(b, k1, q);
        assert(counted(a, k0, q));
        assert forall|j: int| #[trigger] o1.contains(j) == o0.contains(j) by {
            assert(live(b, j) == live(a, j));
            if live(a, j) && j != id {
                assert(left_alone(a[j], k0, k1));
            }
            assert(u.owns(k1, q) == u.owns(k0, q));
        }
        assert(o1 =~= o0);
        if o1.len() > 0 {
            let j = o0.choose();
            assert(o0.contains(j));
            a[j].pagetable->0.lemma_owns(k0);
            assert(k0.frames.contains_key(q));
            if u.owns(k0, q) && u.0.is_node(q) {
                u.0.lemma_nodes_live(k0);
                u.0.lemma_nodes_live(k1);
            }
        }
    }
    reveal(in_order);
}

/// A fork, or one that fails, leaves the memory of all processes in order, and that of all but the
/// parent alone.
pub proof fn law_fork_in_order(
    p0: ProcTable,
    k0: KmemState,
    f0: FilesState,
    id: usize,
    code: Code,
    p1: ProcTable,
    k1: KmemState,
    f1: FilesState,
    r: Result<Pid, KernelError>,
)
    requires
        p0.wf(),
        p1.wf(),
        p0.tidy(),
        kmem_ok(k0),
        kmem_ok(k1),
        in_order(all_data(p0), k0),
        live(all_data(p0), id as int),
        forked(p0, k0, f0, id, code, p1, k1, f1, r),
    ensures
        in_order(all_data(p1), k1),
        forall|j: int| #[trigger]
            live(all_data(p0), j) && j != id ==> left_alone(all_data(p0)[j], k0, k1),
{
    let a = all_data(p0);
    let b = all_data(p1);
    let i = p0.first_unused(0);
    p0.lemma_first_unused(0);
    reveal(forked);
    if i >= NPROC {
        assert(a =~= b);
        assert forall|j: int| #[trigger] live(a, j) implies left_alone(a[j], k0, k1) by {
            reveal(left_alone);
            reveal(in_order);
        }
    } else {
        assert(!live(a, i));
        if r is Ok {
            assert(b =~= a.update(i, b[i]));
            lemma_fork_in_order(a, b[i], id as int, i, k0, k1);
        } else {
            assert forall|j: int| #[trigger] live(b, j) == live(a, j) by {
                if 0 <= j < NPROC && j != i {
                    assert(p1.table@[j] == p0.table@[j]);
                }
            }
            assert forall|j: int| #[trigger] live(a, j) implies b[j] == a[j] by {
                assert(p1.table@[j] == p0.table@[j]);
            }
            if k0.free.len() < 4 {
                lemma_keeps(a, k0, k1);
                lemma_kept_in_order(a, b, k0, k1);
            } else {
                lemma_recovered_in_order(a, b, id as int, k0, k1);
            }
        }
    }
}

pub(crate) proof fn lemma_keeps(p: Seq<ProcData>, k0: KmemState, k1: KmemState)
    requires
        in_order(p, k0),
        k1.keeps(k0),
    ensures
        used_kept(p, k0, k1),
{
    reveal(in_order);
    reveal(used_kept);
    assert forall|j: int, q: u64|
        live(p, j) && #[trigger] uses(p[j], k0, q) implies k1.frames.contains_key(q)
        && k1.frames[q] == k0.frames[q] by {
        p[j].pagetable->0.lemma_owns(k0);
        assert(k0.frames.contains_key(q));
    }
}

/// The pages of pipes are not those of processes.
pub open spec fn pipes_apart(ds: Seq<ProcData>, f: FilesState, k: KmemState) -> bool {
    forall|j: int, q: u64| #[trigger]
        live(ds, j) && #[trigger] f.pipes.contains_key(q) ==> !ds[j].pagetable->0.owns(k, q)
            && ds[j].trapframe->0.pa != q
}

/// Pages that become free when files are closed were those of pipes.
proof fn lemma_freed_pipes(f: FilesState, open: Seq<Option<File>>, i: int)
    requires
        f.close_all(open, i) is Some,
    ensures
        ({
            let (s, wakes, freed) = f.close_all(open, i)->0;
            &&& forall|q: u64| #[trigger] s.pipes.contains_key(q) ==> f.pipes.contains_key(q)
            &&& forall|n: int| 0 <= n < freed.len() ==> f.pipes.contains_key(#[trigger] freed[n])
        }),
    decreases i,
{
    if i > 0 {
        lemma_freed_pipes(f, open, i - 1);
        let (s, wakes, freed) = f.close_all(open, i - 1)->0;
        if let Some(file) = open[i - 1] {
            let (t, c) = s.close(file.id as int)->0;
            assert forall|q: u64| #[trigger] t.pipes.contains_key(q) implies s.pipes.contains_key(
                q,
            ) by {}
            assert(c.freed matches Some(q) ==> s.pipes.contains_key(q));
        }
    }
}

proof fn lemma_released_all(k: KmemState, freed: Seq<u64>, q: u64)
    requires
        !freed.contains(q),
        k.frames.contains_key(q),
    ensures
        released_all(k, freed).frames.contains_key(q),
        released_all(k, freed).frames[q] == k.frames[q],
    decreases freed.len(),
{
    if freed.len() > 0 {
        assert(!freed.drop_last().contains(q)) by {
            if freed.drop_last().contains(q) {
                let n = freed.drop_last().index_of(q);
                assert(freed[n] == q);
            }
        }
        assert(freed[freed.len() - 1] != q);
        lemma_released_all(k, freed.drop_last(), q);
    }
}

/// An exit leaves the memory of all processes in order and alone: that of the process itself is
/// given back when its parent has waited for it.
pub proof fn law_exit_in_order(
    p0: ProcTable,
    k0: KmemState,
    f0: FilesState,
    id: usize,
    status: i64,
    p1: ProcTable,
    k1: KmemState,
    f1: FilesState,
)
    requires
        p0.wf(),
        p1.wf(),
        id < NPROC,
        kmem_ok(k0),
        in_order(all_data(p0), k0),
        pipes_apart(all_data(p0), f0, k0),
        f0.close_all(p0.table@[id as int].data.open_files@, NOFILE as int) is Some,
        exited(p0, k0, f0, id, status, p1, k1, f1),
    ensures
        in_order(all_data(p1), k1),
        forall|j: int| #[trigger]
            live(all_data(p0), j) ==> left_alone(all_data(p0)[j], k0, k1),
{
    reveal(exited);
    let a = all_data(p0);
    let b = all_data(p1);
    let open = p0.table@[id as int].data.open_files@;
    let (s, wakes, freed) = f0.close_all(open, NOFILE as int)->0;
    lemma_freed_pipes(f0, open, NOFILE as int);
    assert forall|j: int| 0 <= j < NPROC implies same_memory(#[trigger] a[j], b[j]) by {
        if j != id {
            assert(p1.table@[j].data == p0.table@[j].data);
        }
    }
    assert forall|j: int| #[trigger] live(b, j) == live(a, j) by {
        if 0 <= j < NPROC {
            assert(same_memory(a[j], b[j]));
        }
    }
    reveal(used_kept);
    assert forall|j: int, q: u64|
        live(a, j) && #[trigger] uses(a[j], k0, q) implies k1.frames.contains_key(q)
        && k1.frames[q] == k0.frames[q] by {
        assert(a[j].settled(k0)) by {
            reveal(in_order);
        }
        a[j].pagetable->0.lemma_owns(k0);
        assert(!freed.contains(q)) by {
            if freed.contains(q) {
                let n = freed.index_of(q);
                assert(f0.pipes.contains_key(freed[n]));
            }
        }
        lemma_released_all(k0, freed, q);
    }
    assert forall|j: int| #[trigger] live(a, j) implies same_memory(a[j], b[j]) by {}
    lemma_kept_in_order(a, b, k0, k1);
}

/// Where no process has memory, all is in order.
pub proof fn law_start_in_order(ds: Seq<ProcData>, k: KmemState)
    requires
        forall|i: int| !#[trigger] live(ds, i),
    ensures
        in_order(ds, k),
{
    reveal(in_order);
    assert forall|q: u64| #[trigger] counted(ds, k, q) by {
        assert(owners(ds, k, q) =~= Set::empty());
    }
}

/// A process that is made of free frames leaves the memory of all processes in order, and that of
/// the others alone.
pub proof fn law_new_in_order(a: Seq<ProcData>, d: ProcData, i: int, k0: KmemState, k1: KmemState)
    requires
        kmem_ok(k0),
        kmem_ok(k1),
        in_order(a, k0),
        0 <= i < a.len(),
        !live(a, i),
        d.settled(k1),
        forall|q: u64| #[trigger]
            k0.frames.contains_key(q) ==> k1.frames.contains_key(q) && k1.frames[q]
                == k0.frames[q],
        forall|q: u64| #[trigger] d.pagetable->0.owns(k1, q) ==> k0.free.contains(q),
        k0.free.contains(d.trapframe->0.pa),
    ensures
        in_order(a.update(i, d), k1),
        forall|j: int| #[trigger] live(a, j) ==> left_alone(a[j], k0, k1),
{
    let b = a.update(i, d);
    let v = d.pagetable->0;
    assert(used_kept(a, k0, k1)) by {
        reveal(used_kept);
        reveal(in_order);
        assert forall|j: int, q: u64|
            live(a, j) && #[trigger] uses(a[j], k0, q) implies k1.frames.contains_key(q)
            && k1.frames[q] == k0.frames[q] by {
            a[j].pagetable->0.lemma_owns(k0);
            assert(k0.frames.contains_key(q));
        }
    }
    lemma_kept_in_order(a, a, k0, k1);
    assert forall|j: int| #[trigger] live(b, j) == (live(a, j) || j == i) by {}
    // no other process has a frame of the new one
    assert forall|j: int, q: u64| #[trigger] live(a, j) && #[trigger] uses(
        a[j],
        k1,
        q,
    ) implies k0.frames.contains_key(q) && !v.owns(k1, q) && q != d.trapframe->0.pa by {
        reveal(left_alone);
        reveal(in_order);
        assert(left_alone(a[j], k0, k1));
        a[j].pagetable->0.lemma_owns(k0);
        assert(k0.frames.contains_key(q));
    }
    assert forall|x: int, y: int|
        #![trigger live(b, x), live(b, y)]
        live(b, x) && live(b, y) && x != y implies b[x].beside(b[y], k1) by {
        if x != i && y != i {
            assert(live(a, x) && live(a, y));
            reveal(in_order);
        } else {
            let j = if x == i {
                y
            } else {
                x
            };
            assert(live(a, j));
            reveal(ProcData::beside);
            let w = a[j].pagetable->0;
            assert forall|q: u64| #[trigger] w.owns(k1, q) implies !v.owns(k1, q) && q
                != d.trapframe->0.pa by {
                assert(uses(a[j], k1, q));
            }
            assert forall|q: u64| #[trigger] v.0.is_node(q) implies !w.owns(k1, q) by {
                assert(v.owns(k1, q));
            }
            assert forall|q: u64| #[trigger] w.0.is_node(q) implies !v.owns(k1, q) by {
                assert(w.owns(k1, q));
            }
            assert(uses(a[j], k1, a[j].trapframe->0.pa));
        }
    }
    assert forall|q: u64| #[trigger] counted(b, k1, q) by {
        lemma_owners(a, k1, q);
        lemma_owners(b, k1, q);
        assert(counted(a, k1, q)) by {
            reveal(in_order);
        }
        let o0 = owners(a, k1, q);
        let o1 = owners(b, k1, q);
        assert forall|j: int| j != i implies #[trigger] o1.contains(j) == o0.contains(j) by {
            assert(live(b, j) == live(a, j));
        }
        assert(!o0.contains(i));
        if v.owns(k1, q) {
            assert forall|j: int| !#[trigger] o0.contains(j) by {
                if o0.contains(j) {
                    assert(live(a, j) && uses(a[j], k1, q));
                }
            }
            assert(o1 =~= Set::empty().insert(i));
            v.lemma_owns(k1);
        } else {
            assert(o1 =~= o0);
        }
    }
    assert forall|j: int| #[trigger] live(b, j) implies b[j].settled(k1) by {
        if j != i {
            assert(live(a, j));
            reveal(in_order);
        }
    }
    reveal(in_order);
}

} // verus!
