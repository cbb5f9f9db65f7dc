//! Waiting for a child to exit.
use vstd::prelude::*;
use crate::kalloc::{Kmem, KmemState};
use crate::le::{push_u64, u64_bytes};
use crate::param::NPROC;
use crate::proc::table::ProcTable;
use crate::proc::{copy_to_user, Channel, Pid, ProcData, ProcInner, ProcState};
use crate::riscv::page_of;
use crate::vm::laws::law_isolation;
use crate::vm::usermem::{UserMem, UPAGES};
use crate::vm::uvm::kmem_ok;
use crate::vm::VA;

verus! {

/// What came of waiting for a child.
#[derive(Debug, Clone, Copy, PartialEq, Eq, Structural)]
pub enum Waited {
    /// The child with this PID had exited.
    Exited(Pid),
    /// There is no child to wait for, or the process was killed.
    Nobody,
    /// The process has to sleep on the channel and try again.
    Sleep(Channel),
}

impl ProcTable {
    /// Slot `j` is a child of process `id`.
    pub open spec fn is_child(self, j: int, id: usize) -> bool {
        0 <= j < NPROC && self.parents@[j] == Some(id)
    }

    /// The first slot from `j` on with a child of process `id` that has exited.
    pub open spec fn zombie(self, id: usize, j: int) -> int
        decreases NPROC - j,
    {
        if j >= NPROC || (self.is_child(j, id) && self.table@[j].inner.state == ProcState::Zombie) {
            j
        } else {
            self.zombie(id, j + 1)
        }
    }
}

impl ProcData {
    /// The memories of two processes are apart but for pages that both can only read: those of
    /// `self` can be changed, and all of `other` given back, without harm to each other.
    pub open spec fn separate(self, other: ProcData, k: KmemState) -> bool {
        let u = self.pagetable->0;
        let v = other.pagetable->0;
        &&& forall|p: u64| #[trigger] v.0.is_node(p) ==> !u.owns(k, p)
        &&& forall|p: u64| #[trigger] u.0.is_node(p) ==> !v.owns(k, p)
        &&& forall|p: u64| #[trigger]
            v.owns(k, p) && u.owns(k, p) ==> k.frames[p].refs >= 2 && !u.writes(k, p)
                && !v.writes(k, p)
        &&& !u.owns(k, other.trapframe->0.pa)
        &&& !v.owns(k, self.trapframe->0.pa)
        &&& self.trapframe->0.pa != other.trapframe->0.pa
    }
}

/// Two memories have the same pages with the same flags and bytes.
pub open spec fn same_pages(a: UserMem, b: UserMem) -> bool {
    &&& a.pages.dom() == b.pages.dom()
    &&& forall|n: int| #[trigger]
        a.pages.contains_key(n) ==> a.pages[n].flags == b.pages[n].flags && a.pages[n].data
            == b.pages[n].data
}

/// Copies the exit status to the process that waited, unless its address is 0.
fn copy_status(data: &mut ProcData, kmem: &mut Kmem, status: i64, addr: VA)
    requires
        old(kmem).wf(),
        old(data).ready(old(kmem)@),
        addr.0 != 0 ==> {
            &&& old(data).mem(old(kmem)@).copy_to(
                old(data).size as int,
                addr.0 as int,
                u64_bytes(status as u64),
            ) matches Some((m, r))
            &&& r is Ok
        },
    ensures
        final(kmem).wf(),
        old(data).touched(old(kmem)@, *final(data), final(kmem)@),
        old(data).settled(old(kmem)@) ==> final(data).settled(final(kmem)@),
        final(data).mem(final(kmem)@) == (if addr.0 == 0 {
            old(data).mem(old(kmem)@)
        } else {
            (old(data).mem(old(kmem)@).copy_to(
                old(data).size as int,
                addr.0 as int,
                u64_bytes(status as u64),
            )->0).0
        }),
{
    proof {
        kmem.lemma_wf();
        data.lemma_touched_refl(kmem@);
    }
    if addr.0 != 0 {
        let mut bytes: Vec<u8> = Vec::new();
        push_u64(&mut bytes, status as u64);
        assert(bytes@ =~= u64_bytes(status as u64));
        let r = copy_to_user(data, kmem, &bytes, addr);
        assert(r is Ok);
    }
}

/// Process `id` can wait, and the status of a child can be copied to `addr`.
#[verifier::opaque]
pub open spec fn can_wait(p0: ProcTable, k0: KmemState, id: usize, addr: VA) -> bool {
    &&& p0.wf()
    &&& id < NPROC
    &&& {
            let j = p0.zombie(id, 0);
            let p = p0.table@[id as int].data;
            let c = p0.table@[j];
            j < NPROC ==> {
                &&& j != id
                &&& p.settled(k0)
                &&& c.data.settled(k0)
                &&& p.separate(c.data, k0)
                &&& addr.0 != 0 ==> {
                    &&& p.mem(k0).copy_to(
                        p.size as int,
                        addr.0 as int,
                        u64_bytes(c.inner.xstate as u64),
                    ) matches Some((m, r))
                    &&& r is Ok
                }
            }
    }
}

/// What waiting does.
#[verifier::opaque]
pub open spec fn waited(
    p0: ProcTable,
    k0: KmemState,
    id: usize,
    addr: VA,
    p1: ProcTable,
    k1: KmemState,
    r: Waited,
) -> bool {
            let j = p0.zombie(id, 0);
            let p = p0.table@[id as int];
            let c = p0.table@[j];
            if j < NPROC {
                let d = p1.table@[id as int].data;
                let m = if addr.0 == 0 {
                    p.data.mem(k0)
                } else {
                    (p.data.mem(k0).copy_to(
                        p.data.size as int,
                        addr.0 as int,
                        u64_bytes(c.inner.xstate as u64),
                    )->0).0
                };
                &&& r == Waited::Exited(c.inner.pid)
                &&& p1.parents@ == p0.parents@.update(j, None)
                &&& p1.init == p0.init
                &&& p1.pid_count == p0.pid_count
                &&& p1.table@[j].inner == ProcInner::unused()
                &&& c.data.emptied(p1.table@[j].data)
                &&& p1.table@[id as int].inner == p.inner
                &&& d == (ProcData { pagetable: d.pagetable, ..p.data })
                &&& d.ready(k1)
                &&& same_pages(m, d.mem(k1))
                &&& p.data.pagetable->0.same_reserved(k0, d.pagetable->0, k1)
                &&& forall|i: int|
                    0 <= i < NPROC && i != id && i != j ==> #[trigger] p1.table@[i]
                        == p0.table@[i]
                &&& forall|q: u64|
                    #![trigger k0.frames[q]]
                    c.data.pagetable->0.owns(k0, q) && !p.data.pagetable->0.owns(k0, q)
                        && k0.frames[q].refs == 1 ==> k1.free.contains(q)
                // the process changed its own memory, and then all of the child was given back
                &&& exists|k: KmemState| #[trigger]
                    p.data.touched(k0, d, k) && kmem_ok(k) && d.settled(k) && c.data.settled(k)
                        && c.data.gone(k, k1)
            } else {
                &&& p1 == p0
                &&& k1 == k0
                &&& r == (if p.inner.killed || forall|i: int| !p0.is_child(i, id) {
                    Waited::Nobody
                } else {
                    Waited::Sleep(Channel::Proc(id))
                })
            }
}

/// Waits for a child process of process `id` to exit. Its exit status is copied to `addr`, and
/// nothing is left of it.
#[verifier::rlimit(40)]
pub fn wait(procs: &mut ProcTable, kmem: &mut Kmem, id: usize, addr: VA) -> (r: Waited)
    requires
        old(kmem).wf(),
        can_wait(*old(procs), old(kmem)@, id, addr),
    ensures
        final(procs).wf(),
        final(kmem).wf(),
        waited(*old(procs), old(kmem)@, id, addr, *final(procs), final(kmem)@, r),
{
    proof {
        reveal(can_wait);
        reveal(waited);
    }
    let ghost t0 = *procs;
    let ghost k0 = kmem@;
    let mut have_kids = false;
    // Scan through table looking for exited children.
    let mut j: usize = 0;
    while j < NPROC
        invariant_except_break
            have_kids == exists|i: int| 0 <= i < j && #[trigger] t0.is_child(i, id),
        invariant
            j <= NPROC,
            procs.wf(),
            *procs == t0,
            t0 == *old(procs),
            t0.zombie(id, 0) == t0.zombie(id, j as int),
        ensures
            j <= NPROC,
            j == t0.zombie(id, 0),
            j == NPROC ==> have_kids == exists|i: int| #[trigger] t0.is_child(i, id),
        decreases NPROC - j,
    {
        let is_child = match procs.parents[j] {
            Some(p) => p == id,
            None => false,
        };
        assert(is_child == t0.is_child(j as int, id));
        if is_child {
            have_kids = true;
            if procs.table[j].inner.state == ProcState::Zombie {
                break;
            }
        }
        j += 1;
    }
    if j < NPROC {
        let pid = procs.table[j].inner.pid;
        let xstate = procs.table[j].inner.xstate;
        let ghost p0 = procs.table@[id as int].data;
        let ghost c0 = procs.table@[j as int].data;
        proof {
            kmem.lemma_wf();
        }
        copy_status(&mut procs.table[id].data, kmem, xstate, addr);
        let ghost p1 = procs.table@[id as int].data;
        let ghost k1 = kmem@;
        proof {
            kmem.lemma_wf();
            lemma_child_kept(p0, k0, p1, k1, c0);
        }
        // clear the parent relationship
        procs.parents[j] = None;
        procs.table[j].free(kmem);
        proof {
            kmem.lemma_wf();
            lemma_parent_kept(p0, k0, p1, k1, c0, kmem@);
            assert(p0.touched(k0, p1, k1) && c0.gone(k1, kmem@));
            assert(procs.parents@ =~= t0.parents@.update(j as int, None));
        }
        return Waited::Exited(pid);
    }
    // No point waiting if we don't have any children.
    if !have_kids || procs.table[id].inner.killed {
        return Waited::Nobody;
    }
    // Wait for a child to exit.
    Waited::Sleep(Channel::Proc(id))
}

/// What a process does to its memory leaves a process that is separate from it in order.
proof fn lemma_child_kept(p0: ProcData, k0: KmemState, p1: ProcData, k1: KmemState, c: ProcData)
    requires
        kmem_ok(k0),
        kmem_ok(k1),
        p0.settled(k0),
        c.settled(k0),
        p0.separate(c, k0),
        p0.touched(k0, p1, k1),
    ensures
        c.settled(k1),
        forall|q: u64| #[trigger] c.pagetable->0.owns(k1, q) == c.pagetable->0.owns(k0, q),
{
    let u = p0.pagetable->0;
    let v = c.pagetable->0;
    let u1 = p1.pagetable->0;
    v.lemma_owns(k0);
    law_isolation(u, k0, u1, k1, v);
    assert forall|p: u64| #[trigger] v.owns(k0, p) implies k1.frames.contains_key(p)
        && k1.frames[p].content == k0.frames[p].content by {
        assert(u.frame_apart(k0, u1, k1, p));
    }
    assert forall|p: u64| #[trigger] v.0.is_node(p) implies k1.frames[p].refs == k0.frames[p].refs by {
        assert(v.owns(k0, p));
        assert(u.frame_apart(k0, u1, k1, p));
    }
    v.lemma_recounted(k0, k1);
    let pa = c.trapframe->0.pa;
    assert(u.frame_apart(k0, u1, k1, pa));
    assert(!v.owns(k1, pa));
    assert forall|n: int| #[trigger] c.mem(k1).pages.contains_key(n) implies c.mem(
        k0,
    ).pages.contains_key(n) by {
        assert(c.mem(k1).pages.dom().contains(n));
    }
    assert(c.mem(k0).pages.dom().contains(UPAGES as int));
    assert(c.mem(k1).pages.contains_key(UPAGES as int));
}

/// Giving back the memory of a child leaves the parent's in order.
proof fn lemma_parent_kept(
    p0: ProcData,
    k0: KmemState,
    p1: ProcData,
    k1: KmemState,
    c: ProcData,
    k2: KmemState,
)
    requires
        kmem_ok(k0),
        kmem_ok(k1),
        kmem_ok(k2),
        p0.settled(k0),
        c.settled(k0),
        c.settled(k1),
        p0.separate(c, k0),
        p0.touched(k0, p1, k1),
        forall|q: u64| #[trigger] c.pagetable->0.owns(k1, q) == c.pagetable->0.owns(k0, q),
        c.gone(k1, k2),
    ensures
        p1.ready(k2),
        same_pages(p1.mem(k1), p1.mem(k2)),
        p0.pagetable->0.same_reserved(k0, p1.pagetable->0, k2),
        forall|q: u64|
            c.pagetable->0.owns(k0, q) && !p0.pagetable->0.owns(k0, q)
                && #[trigger] k0.frames[q].refs == 1 ==> k2.free.contains(q),
{
    let u = p0.pagetable->0;
    let v = c.pagetable->0;
    let u1 = p1.pagetable->0;
    let pa = c.trapframe->0.pa;
    let km = k1.released(pa);
    u.lemma_owns(k0);
    u1.lemma_owns(k1);
    v.lemma_owns(k0);
    v.lemma_owns(k1);
    v.lemma_untouched(k1, km);
    u1.0.lemma_nodes_live(k1);
    v.0.lemma_nodes_live(k1);
    assert(!u1.owns(k1, pa)) by {
        assert(u.frame_apart(k0, u1, k1, pa));
    }
    // a frame that both have is a page that has other references left
    assert forall|q: u64| #[trigger] u1.owns(k1, q) && v.owns(k1, q) implies k1.frames[q].refs >= 2
        && !u1.0.is_node(q) by {
        assert(v.owns(k0, q));
        assert(u.owns(k0, q));
        assert(u.frame_apart(k0, u1, k1, q));
        if u1.0.is_node(q) {
            assert(k1.frames[q].refs == 1);
        }
    }
    assert forall|q: u64| #[trigger] v.writes(km, q) implies !u1.owns(k1, q) by {
        let m = choose|m: int| #[trigger]
            v.maps(km, m) && page_of(v.pte(km, m)) == q && crate::vm::flag(
                v.pte(km, m),
                crate::riscv::PTE_W,
            );
        lemma_writes_kept(p0, k0, p1, k1, c, q);
        assert(v.maps(k1, m));
        assert(v.writes(k1, q));
    }
    assert forall|q: u64| #[trigger] u1.owns(k1, q) implies k2.frames.contains_key(q)
        && k2.frames[q].content == k1.frames[q].content by {
        assert(km.frames.contains_key(q) && km.frames[q] == k1.frames[q]);
        assert(v.frame_freed(km, k2, q));
        assert(v.owns(km, q) == v.owns(k1, q));
    }
    assert forall|q: u64| #[trigger] u1.0.is_node(q) implies k2.frames[q].refs == k1.frames[q].refs by {
        assert(u1.owns(k1, q));
        assert(!v.owns(k1, q));
        assert(v.frame_freed(km, k2, q));
    }
    u1.lemma_recounted(k1, k2);
    assert forall|q: u64|
        v.owns(k0, q) && !u.owns(k0, q) && #[trigger] k0.frames[q].refs == 1 implies k2.free.contains(q) by {
        assert(u.frame_apart(k0, u1, k1, q));
        assert(v.owns(k1, q) && k1.frames[q] == k0.frames[q]);
        assert(v.owns(km, q));
        assert(km.frames.contains_key(q));
        assert(v.frame_freed(km, k2, q));
    }
}

/// What the child can write the parent does not have.
proof fn lemma_writes_kept(
    p0: ProcData,
    k0: KmemState,
    p1: ProcData,
    k1: KmemState,
    c: ProcData,
    q: u64,
)
    requires
        kmem_ok(k0),
        p0.settled(k0),
        c.settled(k0),
        c.settled(k1),
        p0.separate(c, k0),
        p0.touched(k0, p1, k1),
    ensures
        c.pagetable->0.writes(k1, q) ==> !p1.pagetable->0.owns(k1, q),
{
    let u = p0.pagetable->0;
    let v = c.pagetable->0;
    let u1 = p1.pagetable->0;
    v.lemma_owns(k0);
    assert forall|p: u64| #[trigger] v.owns(k0, p) implies k1.frames.contains_key(p)
        && k1.frames[p].content == k0.frames[p].content by {
        assert(u.frame_apart(k0, u1, k1, p));
    }
    assert forall|p: u64| #[trigger] v.0.is_node(p) implies k1.frames[p].refs == k0.frames[p].refs by {
        assert(v.owns(k0, p));
        assert(u.frame_apart(k0, u1, k1, p));
    }
    v.lemma_recounted(k0, k1);
    if v.writes(k1, q) {
        let m = choose|m: int| #[trigger]
            v.maps(k1, m) && page_of(v.pte(k1, m)) == q && crate::vm::flag(
                v.pte(k1, m),
                crate::riscv::PTE_W,
            );
        assert(v.maps(k0, m));
        assert(v.pte(k1, m) == v.pte(k0, m));
        assert(v.writes(k0, q));
        assert(v.owns(k0, q));
        assert(!u.owns(k0, q));
        if u1.owns(k1, q) {
            assert(k0.free.contains(q));
        }
    }
}

} // verus!
