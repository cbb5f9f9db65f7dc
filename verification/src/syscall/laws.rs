//! What system calls keep.
use vstd::prelude::*;
use crate::abi::{SysError, Syscall};
use crate::exec::run::executed;
use crate::exec::ExecError;
use crate::file::FilesState;
use crate::kalloc::{zero_page, Content, KmemState};
use crate::proc::order::{
    in_order,
    law_exec_in_order,
    law_memory_in_order,
    left_alone,
    lemma_alone_trans,
    lemma_kept_in_order,
    lemma_left_alone,
    live,
    pipes_apart,
    used_kept,
    uses,
};
use crate::proc::traps::{can_return, lemma_can_return};
use crate::proc::{Channel, Code, ProcData, ProcInner};
use crate::syscall::dispatch::{data_called, is_data_call, is_file_call, Outcome};
use crate::syscall::{file_of, SyscallArgs};
use crate::sysfile::pipes::pipe_frames;
use crate::sysfile::run::called_exec;
use crate::vm::uvm::kmem_ok;

verus! {

/// Every process but `id` sees nothing of what happens from `k0` to `k1`.
pub open spec fn others_alone(a: Seq<ProcData>, id: int, k0: KmemState, k1: KmemState) -> bool {
    forall|j: int| #[trigger] live(a, j) && j != id ==> left_alone(a[j], k0, k1)
}

/// A process that changed its memory.
proof fn lemma_touched(a: Seq<ProcData>, id: int, d1: ProcData, k0: KmemState, k1: KmemState)
    requires
        kmem_ok(k0),
        kmem_ok(k1),
        in_order(a, k0),
        live(a, id),
        d1.settled(k1),
        d1.trapframe == a[id].trapframe,
        a[id].pagetable->0.apart(k0, d1.pagetable->0, k1),
    ensures
        in_order(a.update(id, d1), k1),
        others_alone(a, id, k0, k1),
{
    reveal(in_order);
    assert(a[id].settled(k0));
    law_memory_in_order(a, a.update(id, d1), id, k0, k1);
}

/// Frames that no process uses are taken or given back.
proof fn lemma_unused(a: Seq<ProcData>, id: int, d1: ProcData, p: u64, k0: KmemState, k1: KmemState)
    requires
        kmem_ok(k0),
        in_order(a, k0),
        live(a, id),
        d1.pagetable == a[id].pagetable,
        d1.trapframe == a[id].trapframe,
        d1.size == a[id].size,
        forall|j: int| #[trigger] live(a, j) ==> !uses(a[j], k0, p),
        forall|q: u64| #[trigger]
            k0.frames.contains_key(q) && q != p ==> k1.frames.contains_key(q) && k1.frames[q]
                == k0.frames[q],
    ensures
        in_order(a.update(id, d1), k1),
        forall|j: int| #[trigger] live(a, j) ==> left_alone(a[j], k0, k1),
{
    let b = a.update(id, d1);
    assert(used_kept(a, k0, k1)) by {
        reveal(used_kept);
        reveal(in_order);
        assert forall|j: int, q: u64| live(a, j) && #[trigger] uses(a[j], k0, q) implies k1.frames.contains_key(q)
            && k1.frames[q] == k0.frames[q] by {
            assert(!uses(a[j], k0, p));
            a[j].pagetable->0.lemma_owns(k0);
            assert(k0.frames.contains_key(q));
        }
    }
    assert forall|j: int| #[trigger] live(b, j) == live(a, j) by {}
    lemma_kept_in_order(a, b, k0, k1);
}

proof fn lemma_pipe_in_order(
    a: Seq<ProcData>,
    id: int,
    p: u64,
    d1: ProcData,
    k0: KmemState,
    k1: KmemState,
    kept: bool,
)
    requires
        kmem_ok(k0),
        kmem_ok(k1),
        in_order(a, k0),
        live(a, id),
        k0.free.contains(p),
        d1.trapframe == a[id].trapframe,
        d1.size == a[id].size,
        pipe_frames(a[id], k0, p, d1, k1, kept),
    ensures
        in_order(a.update(id, d1), k1),
        others_alone(a, id, k0, k1),
{
    reveal(pipe_frames);
    let k = k0.allocated(p, Content::Page(zero_page()));
    let (e, m) = choose|e: ProcData, m: KmemState|
        {
            &&& #[trigger] a[id].touched(k, e, m)
            &&& kmem_ok(k)
            &&& kmem_ok(m)
            &&& e.pagetable == d1.pagetable
            &&& k1 == if kept {
                m
            } else {
                m.released(p)
            }
        };
    // the page is taken
    assert forall|j: int| #[trigger] live(a, j) implies !uses(a[j], k0, p) by {
        reveal(in_order);
        a[j].pagetable->0.lemma_owns(k0);
    }
    assert(a.update(id, a[id]) =~= a);
    lemma_unused(a, id, a[id], p, k0, k);
    // the process changes its memory
    assert(a[id].settled(k)) by {
        reveal(in_order);
    }
    a[id].lemma_still(k, e, m);
    lemma_touched(a, id, e, k, m);
    let c = a.update(id, e);
    // nobody uses the page
    assert forall|j: int| #[trigger] live(c, j) implies !uses(c[j], m, p) by {
        reveal(left_alone);
        if j == id {
            let u = a[id].pagetable->0;
            let v = e.pagetable->0;
            assert(left_alone(a[id], k0, k));
            assert(u.owns(k, p) == u.owns(k0, p));
            assert(!uses(a[id], k0, p));
            if v.owns(m, p) {
                assert(u.owns(k, p) || k.free.contains(p));
            }
        } else {
            assert(live(a, j));
            assert(!uses(a[j], k0, p));
            assert(left_alone(a[j], k0, k) && left_alone(a[j], k, m));
            assert(a[j].pagetable->0.owns(k, p) == a[j].pagetable->0.owns(k0, p));
            assert(a[j].pagetable->0.owns(m, p) == a[j].pagetable->0.owns(k, p));
        }
    }
    assert(c.update(id, d1) =~= a.update(id, d1));
    lemma_unused(c, id, d1, p, m, k1);
    assert forall|j: int| #[trigger] live(a, j) && j != id implies left_alone(a[j], k0, k1) by {
        assert(live(c, j));
        lemma_alone_trans(a[j], k0, k, m);
        lemma_alone_trans(a[j], k0, m, k1);
    }
}

proof fn lemma_exec_in_order(
    a: Seq<ProcData>,
    id: int,
    f0: FilesState,
    args: SyscallArgs,
    trampoline: u64,
    f1: FilesState,
    d1: ProcData,
    k0: KmemState,
    k1: KmemState,
    r: Result<u64, SysError>,
)
    requires
        kmem_ok(k0),
        kmem_ok(k1),
        in_order(a, k0),
        live(a, id),
        live(a.update(id, d1), id),
        d1.trapframe is Some,
        d1.trapframe->0.pa == a[id].trapframe->0.pa,
        called_exec(f0.fs, a[id], k0, args, trampoline, f1.fs, d1, k1, r),
    ensures
        in_order(a.update(id, d1), k1),
        others_alone(a, id, k0, k1),
{
    let d0 = a[id];
    assert(d0.settled(k0)) by {
        reveal(in_order);
    }
    let (m, fetched) = d0.mem(k0).fetch_program(d0.size as int, args)->0;
    match fetched {
        Err(e) => {
            lemma_touched(a, id, d1, k0, k1);
        },
        Ok((path, argv)) => {
            let (d, k, e) = choose|d: ProcData, k: KmemState, e: Result<u64, ExecError>|
                {
                    &&& d0.touched(k0, d, k)
                    &&& d.settled(k)
                    &&& kmem_ok(k)
                    &&& d.mem(k) == m
                    &&& #[trigger] executed(
                        f0.fs,
                        d,
                        k,
                        path,
                        argv,
                        trampoline,
                        f1.fs,
                        d1,
                        k1,
                        e,
                    )
                    &&& r == match e {
                        Ok(argc) => Ok::<u64, SysError>(argc),
                        Err(_) => Err(SysError::InvalidExecutable),
                    }
                };
            lemma_touched(a, id, d, k0, k);
            let c = a.update(id, d);
            let b = a.update(id, d1);
            law_exec_in_order(c, b, id, f0.fs, k, path, argv, trampoline, f1.fs, k1, e);
            assert forall|j: int| #[trigger] live(a, j) && j != id implies left_alone(
                a[j],
                k0,
                k1,
            ) by {
                assert(live(c, j));
                lemma_alone_trans(a[j], k0, k, k1);
            }
        },
    }
}

/// A system call on the process itself and on files leaves the memory of all processes in order,
/// and that of the others alone. The one exception is to permit writing to a page: if the page is
/// shared, the process can then change what others see.
pub proof fn law_call_in_order(
    a: Seq<ProcData>,
    id: int,
    f0: FilesState,
    k0: KmemState,
    sys: Syscall,
    args: SyscallArgs,
    who: ProcInner,
    done: u64,
    code: Code,
    f1: FilesState,
    d1: ProcData,
    k1: KmemState,
    o: Outcome,
    w: Option<Channel>,
)
    requires
        kmem_ok(k0),
        kmem_ok(k1),
        in_order(a, k0),
        live(a, id),
        pipes_apart(a, f0, k0),
        is_data_call(sys),
        sys != Syscall::Munprotect,
        data_called(f0, a[id], k0, sys, args, who, done, code, f1, d1, k1, o, w),
        sys == Syscall::Close ==> (file_of(a[id].open_files@, args.arg(0) as i64) matches Ok(
            (fd, file),
        ) ==> f0.close(file.id as int) is Some),
        sys == Syscall::Exec ==> d1.pagetable is Some && d1.trapframe is Some
            && d1.trapframe->0.pa == a[id].trapframe->0.pa,
    ensures
        in_order(a.update(id, d1), k1),
        others_alone(a, id, k0, k1),
{
    let d0 = a[id];
    let b = a.update(id, d1);
    reveal(data_called);
    assert(d0.settled(k0)) by {
        reveal(in_order);
    }
    if is_file_call(sys) {
        lemma_touched(a, id, d1, k0, k1);
    } else {
        let r = o->Done_0;
        match sys {
            Syscall::Pipe => {
                if d1 == d0 && k1 == k0 {
                    assert(b =~= a);
                    assert forall|j: int| #[trigger] live(a, j) implies left_alone(
                        a[j],
                        k0,
                        k1,
                    ) by {
                        reveal(left_alone);
                        reveal(in_order);
                    }
                } else {
                    let p = choose|p: u64| #[trigger]
                        k0.free.contains(p) && d1 == (ProcData {
                            open_files: d1.open_files,
                            pagetable: d1.pagetable,
                            ..d0
                        }) && pipe_frames(d0, k0, p, d1, k1, r is Ok);
                    lemma_pipe_in_order(a, id, p, d1, k0, k1, r is Ok);
                }
            },
            Syscall::Close => {
                match file_of(d0.open_files@, args.arg(0) as i64) {
                    Err(_) => {
                        assert(b =~= a);
                        assert forall|j: int| #[trigger] live(a, j) implies left_alone(
                            a[j],
                            k0,
                            k1,
                        ) by {
                            reveal(left_alone);
                            reveal(in_order);
                        }
                    },
                    Ok((fd, file)) => {
                        let (s, c) = f0.close(file.id as int)->0;
                        let p = match c.freed {
                            Some(p) => p,
                            None => 0,
                        };
                        if let Some(p) = c.freed {
                            assert(f0.pipes.contains_key(p));
                            assert forall|j: int| #[trigger] live(a, j) implies !uses(
                                a[j],
                                k0,
                                p,
                            ) by {}
                        } else {
                            // page 0 is not one of memory
                            assert forall|j: int| #[trigger] live(a, j) implies !uses(
                                a[j],
                                k0,
                                0,
                            ) by {
                                reveal(in_order);
                                a[j].pagetable->0.lemma_owns(k0);
                            }
                        }
                        lemma_unused(a, id, d1, p, k0, k1);
                    },
                }
            },
            Syscall::Exec => {
                lemma_exec_in_order(a, id, f0, args, code.trampoline, f1, d1, k0, k1, r);
            },
            _ => {
                lemma_touched(a, id, d1, k0, k1);
            },
        }
    }
}

/// A system call on the process itself and on files leaves every process able to return to user
/// space: trampoline and trap frame lead where they must.
pub proof fn law_call_can_return(
    a: Seq<ProcData>,
    id: int,
    f0: FilesState,
    k0: KmemState,
    sys: Syscall,
    args: SyscallArgs,
    who: ProcInner,
    done: u64,
    code: Code,
    f1: FilesState,
    d1: ProcData,
    k1: KmemState,
    o: Outcome,
    w: Option<Channel>,
)
    requires
        kmem_ok(k0),
        kmem_ok(k1),
        in_order(a, k0),
        can_return(a, k0, code.trampoline),
        live(a, id),
        pipes_apart(a, f0, k0),
        is_data_call(sys),
        data_called(f0, a[id], k0, sys, args, who, done, code, f1, d1, k1, o, w),
        sys == Syscall::Close ==> (file_of(a[id].open_files@, args.arg(0) as i64) matches Ok(
            (fd, file),
        ) ==> f0.close(file.id as int) is Some),
        sys == Syscall::Exec ==> d1.pagetable is Some && d1.trapframe is Some
            && d1.trapframe->0.pa == a[id].trapframe->0.pa,
    ensures
        can_return(a.update(id, d1), k1, code.trampoline),
{
    let b = a.update(id, d1);
    assert(a[id].settled(k0)) by {
        reveal(in_order);
    }
    assert(d1.settled(k1)) by {
        reveal(data_called);
    }
    lemma_call_trampoline(a[id], f0, k0, sys, args, who, done, code, f1, d1, k1, o, w);
    assert(a[id].pagetable->0.trampoline_at(k0, code.trampoline)) by {
        reveal(can_return);
    }
    if sys == Syscall::Munprotect {
        reveal(data_called);
        assert forall|j: int| #[trigger] live(a, j) && j != id implies left_alone(a[j], k0, k1) by {
            lemma_tables_alone(a, id, j, k0, k1);
        }
        assert(b =~= a);
        reveal(can_return);
        reveal(left_alone);
        assert forall|j: int| #[trigger] live(a, j) implies a[j].trapframe is Some
            && a[j].pagetable->0.trapframe_at(k1, a[j].trapframe->0.pa)
            && a[j].pagetable->0.trampoline_at(k1, code.trampoline) by {
            if j != id {
                assert(left_alone(a[j], k0, k1));
            }
        }
    } else {
        law_call_in_order(a, id, f0, k0, sys, args, who, done, code, f1, d1, k1, o, w);
        assert forall|j: int| #[trigger] live(b, j) implies b[j].pagetable->0.trampoline_at(
            k1,
            code.trampoline,
        ) || (live(a, j) && b[j].pagetable == a[j].pagetable && left_alone(a[j], k0, k1)) by {
            if j != id {
                assert(live(a, j));
            }
        }
        lemma_can_return(a, k0, b, k1, code.trampoline);
    }
}

/// The page of the trampoline of the process itself leads where it did, or to the code that a new
/// program returns by.
proof fn lemma_call_trampoline(
    d0: ProcData,
    f0: FilesState,
    k0: KmemState,
    sys: Syscall,
    args: SyscallArgs,
    who: ProcInner,
    done: u64,
    code: Code,
    f1: FilesState,
    d1: ProcData,
    k1: KmemState,
    o: Outcome,
    w: Option<Channel>,
)
    requires
        is_data_call(sys),
        data_called(f0, d0, k0, sys, args, who, done, code, f1, d1, k1, o, w),
    ensures
        d0.pagetable->0.same_reserved(k0, d1.pagetable->0, k1)
            || d1.pagetable->0.trampoline_at(k1, code.trampoline),
{
    reveal(data_called);
    if sys == Syscall::Exec {
        let r = o->Done_0;
        let (m, fetched) = d0.mem(k0).fetch_program(d0.size as int, args)->0;
        if let Ok((path, argv)) = fetched {
            let (d, k, e) = choose|d: ProcData, k: KmemState, e: Result<u64, ExecError>|
                {
                    &&& d0.touched(k0, d, k)
                    &&& d.settled(k)
                    &&& kmem_ok(k)
                    &&& d.mem(k) == m
                    &&& #[trigger] executed(
                        f0.fs,
                        d,
                        k,
                        path,
                        argv,
                        code.trampoline,
                        f1.fs,
                        d1,
                        k1,
                        e,
                    )
                    &&& r == match e {
                        Ok(argc) => Ok::<u64, SysError>(argc),
                        Err(_) => Err(SysError::InvalidExecutable),
                    }
                };
            reveal(executed);
        }
    }
}

/// What a process does to its own tables leaves the others alone.
proof fn lemma_tables_alone(a: Seq<ProcData>, id: int, j: int, k0: KmemState, k1: KmemState)
    requires
        kmem_ok(k0),
        in_order(a, k0),
        live(a, id),
        live(a, j),
        j != id,
        a[id].pagetable->0.tables_only(k0, k1),
    ensures
        left_alone(a[j], k0, k1),
{
    reveal(in_order);
    reveal(ProcData::beside);
    let u = a[id].pagetable->0;
    assert(a[id].beside(a[j], k0));
    assert(a[j].beside(a[id], k0));
    a[j].pagetable->0.lemma_owns(k0);
    assert(!u.owns(k0, a[j].trapframe->0.pa));
    lemma_left_alone(a[j], k0, k1);
}

} // verus!
