//! Every process can trap and return: its reserved pages lead to the code and the frame for that.
use vstd::prelude::*;
use crate::error::KernelError;
use crate::exec::run::executed;
use crate::exec::ExecError;
use crate::file::FilesState;
use crate::fs::table::FsState;
use crate::kalloc::KmemState;
use crate::param::{NOFILE, NPROC};
use crate::proc::exit::exited;
use crate::proc::fork::forked;
use crate::proc::order::{
    all_data,
    in_order,
    law_exec_in_order,
    law_exit_in_order,
    law_fork_in_order,
    law_memory_in_order,
    law_new_in_order,
    law_wait_in_order,
    left_alone,
    live,
    only_changed,
    pipes_apart,
};
use crate::proc::table::ProcTable;
use crate::proc::wait::{waited, Waited};
use crate::proc::{Code, Pid, ProcData};
use crate::vm::uvm::kmem_ok;
use crate::vm::VA;

verus! {

/// In every process the page of the trampoline leads to the code at `trampoline`, and the page of
/// the trap frame to the trap frame of that process.
#[verifier::opaque]
pub open spec fn can_return(ds: Seq<ProcData>, k: KmemState, trampoline: u64) -> bool {
    forall|i: int| #[trigger]
        live(ds, i) ==> ds[i].trapframe is Some && ds[i].pagetable->0.trapframe_at(
            k,
            ds[i].trapframe->0.pa,
        ) && ds[i].pagetable->0.trampoline_at(k, trampoline)
}

/// Process `i` can return to user space, and the others are as they were or can, too.
pub(crate) proof fn lemma_can_return(
    a: Seq<ProcData>,
    k0: KmemState,
    b: Seq<ProcData>,
    k1: KmemState,
    trampoline: u64,
)
    requires
        in_order(b, k1),
        can_return(a, k0, trampoline),
        forall|j: int| #[trigger]
            live(b, j) ==> b[j].pagetable->0.trampoline_at(k1, trampoline) || (live(a, j)
                && b[j].pagetable == a[j].pagetable && left_alone(a[j], k0, k1)),
    ensures
        can_return(b, k1, trampoline),
{
    reveal(can_return);
    reveal(in_order);
    reveal(left_alone);
}

/// Where no process has memory, each that has can return.
pub proof fn law_start_can_return(ds: Seq<ProcData>, k: KmemState, trampoline: u64)
    requires
        forall|i: int| !#[trigger] live(ds, i),
    ensures
        can_return(ds, k, trampoline),
{
    reveal(can_return);
}

/// A new process can return, and all others still can.
pub proof fn law_new_can_return(
    p0: ProcTable,
    k0: KmemState,
    p1: ProcTable,
    i: int,
    k1: KmemState,
    code: Code,
    left: nat,
)
    requires
        p0.wf(),
        p1.wf(),
        kmem_ok(k0),
        kmem_ok(k1),
        in_order(all_data(p0), k0),
        can_return(all_data(p0), k0, code.trampoline),
        0 <= i < NPROC,
        !live(all_data(p0), i),
        p0.same_but(p1, i),
        p0.made(p1, i, k1, code, left),
        k1.keeps(k0),
        forall|q: u64| #[trigger]
            p1.table@[i].data.pagetable->0.owns(k1, q) ==> k0.free.contains(q),
        k0.free.contains(p1.table@[i].data.trapframe->0.pa),
    ensures
        can_return(all_data(p1), k1, code.trampoline),
{
    let a = all_data(p0);
    let b = all_data(p1);
    let d = b[i];
    assert forall|j: int| 0 <= j < NPROC && j != i implies #[trigger] b[j] == a[j] by {
        assert(p1.table@[j] == p0.table@[j]);
    }
    assert(b =~= a.update(i, d));
    law_new_in_order(a, d, i, k0, k1);
    assert forall|j: int| #[trigger] live(b, j) implies b[j].pagetable->0.trampoline_at(
        k1,
        code.trampoline,
    ) || (live(a, j) && b[j].pagetable == a[j].pagetable && left_alone(a[j], k0, k1)) by {
        if j != i {
            assert(live(a, j));
        }
    }
    lemma_can_return(a, k0, b, k1, code.trampoline);
}

/// Whatever a process does to its own memory, by faults and by system calls, every process can
/// return as before.
pub proof fn law_memory_can_return(
    a: Seq<ProcData>,
    b: Seq<ProcData>,
    i: int,
    k0: KmemState,
    k1: KmemState,
    trampoline: u64,
)
    requires
        kmem_ok(k0),
        kmem_ok(k1),
        in_order(a, k0),
        can_return(a, k0, trampoline),
        only_changed(a, b, i),
        b[i].settled(k1),
        a[i].pagetable->0.apart(k0, b[i].pagetable->0, k1),
        a[i].pagetable->0.same_reserved(k0, b[i].pagetable->0, k1),
    ensures
        can_return(b, k1, trampoline),
{
    law_memory_in_order(a, b, i, k0, k1);
    assert forall|j: int| #[trigger] live(b, j) implies b[j].pagetable->0.trampoline_at(
        k1,
        trampoline,
    ) || (live(a, j) && b[j].pagetable == a[j].pagetable && left_alone(a[j], k0, k1)) by {
        assert(live(a, j));
        reveal(can_return);
    }
    lemma_can_return(a, k0, b, k1, trampoline);
}

/// A program that is executed, or is not, leaves every process able to return.
pub proof fn law_exec_can_return(
    a: Seq<ProcData>,
    b: Seq<ProcData>,
    i: int,
    s0: FsState,
    k0: KmemState,
    path: Seq<u8>,
    argv: Seq<Seq<u8>>,
    trampoline: u64,
    s1: FsState,
    k1: KmemState,
    r: Result<u64, ExecError>,
)
    requires
        kmem_ok(k0),
        kmem_ok(k1),
        in_order(a, k0),
        can_return(a, k0, trampoline),
        only_changed(a, b, i),
        executed(s0, a[i], k0, path, argv, trampoline, s1, b[i], k1, r),
    ensures
        can_return(b, k1, trampoline),
{
    law_exec_in_order(a, b, i, s0, k0, path, argv, trampoline, s1, k1, r);
    assert forall|j: int| #[trigger] live(b, j) implies b[j].pagetable->0.trampoline_at(
        k1,
        trampoline,
    ) || (live(a, j) && b[j].pagetable == a[j].pagetable && left_alone(a[j], k0, k1)) by {
        assert(live(a, j));
        reveal(can_return);
        if j == i {
            reveal(executed);
        }
    }
    lemma_can_return(a, k0, b, k1, trampoline);
}

/// A fork, or one that fails, leaves every process able to return, the child included.
pub proof fn law_fork_can_return(
    p0: ProcTable,
    k0: KmemState,
    f0: FilesState,
    id: usize,
    code: Code,
    p1: ProcTable,
    k1: KmemState,
    f1: FilesState,
    r: Result<Pid, KernelError>,
)
    requires
        p0.wf(),
        p1.wf(),
        p0.tidy(),
        kmem_ok(k0),
        kmem_ok(k1),
        in_order(all_data(p0), k0),
        can_return(all_data(p0), k0, code.trampoline),
        live(all_data(p0), id as int),
        forked(p0, k0, f0, id, code, p1, k1, f1, r),
    ensures
        can_return(all_data(p1), k1, code.trampoline),
{
    let a = all_data(p0);
    let b = all_data(p1);
    let i = p0.first_unused(0);
    p0.lemma_first_unused(0);
    law_fork_in_order(p0, k0, f0, id, code, p1, k1, f1, r);
    assert forall|j: int| #[trigger] live(b, j) implies b[j].pagetable->0.trampoline_at(
        k1,
        code.trampoline,
    ) || (live(a, j) && b[j].pagetable == a[j].pagetable && left_alone(a[j], k0, k1)) by {
        reveal(forked);
        reveal(can_return);
        if j != i {
            assert(p1.table@[j] == p0.table@[j]);
            assert(live(a, j));
        }
    }
    lemma_can_return(a, k0, b, k1, code.trampoline);
}

/// Waiting leaves every process able to return.
pub proof fn law_wait_can_return(
    p0: ProcTable,
    k0: KmemState,
    id: usize,
    addr: VA,
    p1: ProcTable,
    k1: KmemState,
    r: Waited,
    trampoline: u64,
)
    requires
        p0.wf(),
        p1.wf(),
        kmem_ok(k0),
        kmem_ok(k1),
        in_order(all_data(p0), k0),
        can_return(all_data(p0), k0, trampoline),
        live(all_data(p0), id as int),
        p0.zombie(id, 0) < NPROC ==> live(all_data(p0), p0.zombie(id, 0)) && p0.zombie(id, 0) != id,
        waited(p0, k0, id, addr, p1, k1, r),
    ensures
        can_return(all_data(p1), k1, trampoline),
{
    let a = all_data(p0);
    let b = all_data(p1);
    law_wait_in_order(p0, k0, id, addr, p1, k1, r);
    assert forall|j: int| #[trigger] live(b, j) implies b[j].pagetable->0.trampoline_at(
        k1,
        trampoline,
    ) || (live(a, j) && b[j].pagetable == a[j].pagetable && left_alone(a[j], k0, k1)) by {
        reveal(waited);
        reveal(can_return);
    }
    lemma_can_return(a, k0, b, k1, trampoline);
}

/// An exit leaves every process able to return.
pub proof fn law_exit_can_return(
    p0: ProcTable,
    k0: KmemState,
    f0: FilesState,
    id: usize,
    status: i64,
    p1: ProcTable,
    k1: KmemState,
    f1: FilesState,
    trampoline: u64,
)
    requires
        p0.wf(),
        p1.wf(),
        id < NPROC,
        kmem_ok(k0),
        in_order(all_data(p0), k0),
        can_return(all_data(p0), k0, trampoline),
        pipes_apart(all_data(p0), f0, k0),
        f0.close_all(p0.table@[id as int].data.open_files@, NOFILE as int) is Some,
        exited(p0, k0, f0, id, status, p1, k1, f1),
    ensures
        can_return(all_data(p1), k1, trampoline),
{
    let a = all_data(p0);
    let b = all_data(p1);
    law_exit_in_order(p0, k0, f0, id, status, p1, k1, f1);
    assert forall|j: int| #[trigger] live(b, j) implies b[j].pagetable->0.trampoline_at(
        k1,
        trampoline,
    ) || (live(a, j) && b[j].pagetable == a[j].pagetable && left_alone(a[j], k0, k1)) by {
        reveal(exited);
        if j != id {
            assert(p1.table@[j].data == p0.table@[j].data);
        }
        assert(live(a, j));
    }
    lemma_can_return(a, k0, b, k1, trampoline);
}

} // verus!
