//! What holds of processes over more than one call.
use vstd::prelude::*;
use crate::file::{File, FilesState, TableState};
use crate::kalloc::KmemState;
use crate::param::{NFILE, NPROC};
use crate::proc::exit::{exited, wake, wake_all};
use crate::proc::wait::{waited, Waited};
use crate::proc::{Channel, Code, ProcInner, ProcState, ProcTable};
use crate::vm::VA;

verus! {

/// A new process has a PID that no other process has, none had before, and that is not 0, by which
/// `fork` tells a child that it is one.
pub proof fn law_new_pid(p0: ProcTable, p1: ProcTable, i: int, k: KmemState, code: Code, left: nat)
    requires
        p0.wf(),
        p0.pids_unique(),
        0 <= i < NPROC,
        p0.same_but(p1, i),
        p1.pid_count == p0.pid_count + 1,
        p0.made(p1, i, k, code, left),
    ensures
        p1.pids_unique(),
        p1.table@[i].inner.pid.0 != 0,
        forall|j: int| 0 <= j < NPROC && j != i && p0.table@[j].inner.state != ProcState::Unused
            ==> (#[trigger] p1.table@[j]).inner.pid != p1.table@[i].inner.pid,
{
    assert forall|a: int, b: int|
        #![trigger p1.table@[a], p1.table@[b]]
        0 <= a < b < NPROC && p1.table@[a].inner.state != ProcState::Unused
            && p1.table@[b].inner.state != ProcState::Unused implies p1.table@[a].inner.pid
        != p1.table@[b].inner.pid by {
        if a != i {
            assert(p1.table@[a] == p0.table@[a]);
        }
        if b != i {
            assert(p1.table@[b] == p0.table@[b]);
        }
    }
}

/// The same processes, with the same PIDs.
pub open spec fn same_ids(a: Seq<ProcInner>, b: Seq<ProcInner>) -> bool {
    &&& a.len() == b.len()
    &&& forall|j: int|
        0 <= j < a.len() ==> (#[trigger] b[j]).pid == a[j].pid && ((b[j].state
            == ProcState::Unused) == (a[j].state == ProcState::Unused))
}

proof fn lemma_wake(inner: Seq<ProcInner>, current: int, c: Option<Channel>)
    ensures
        same_ids(inner, wake(inner, current, c)),
        0 <= current < inner.len() ==> wake(inner, current, c)[current] == inner[current],
{
}

proof fn lemma_wake_all(inner: Seq<ProcInner>, current: int, wakes: Seq<Channel>)
    ensures
        same_ids(inner, wake_all(inner, current, wakes)),
        0 <= current < inner.len() ==> wake_all(inner, current, wakes)[current] == inner[current],
    decreases wakes.len(),
{
    if wakes.len() > 0 {
        let before = wake_all(inner, current, wakes.drop_last());
        lemma_wake_all(inner, current, wakes.drop_last());
        lemma_wake(before, current, Some(wakes.last()));
        let after = wake_all(inner, current, wakes);
        assert forall|j: int| 0 <= j < inner.len() implies (#[trigger] after[j]).pid == inner[j].pid
            && ((after[j].state == ProcState::Unused) == (inner[j].state == ProcState::Unused)) by {
            assert(before[j].pid == inner[j].pid);
        }
    }
}

proof fn lemma_same_ids(p0: ProcTable, p1: ProcTable)
    requires
        p0.wf(),
        p0.pids_unique(),
        p1.pid_count == p0.pid_count,
        same_ids(p0.inner(), p1.inner()),
    ensures
        p1.pids_unique(),
{
    assert forall|i: int| 0 <= i < NPROC implies (#[trigger] p1.table@[i]).inner.pid
        == p0.table@[i].inner.pid && ((p1.table@[i].inner.state == ProcState::Unused) == (
    p0.table@[i].inner.state == ProcState::Unused)) by {
        assert(p1.inner()[i] == p1.table@[i].inner);
        assert(p0.inner()[i] == p0.table@[i].inner);
    }
    assert forall|a: int, b: int|
        #![trigger p1.table@[a], p1.table@[b]]
        0 <= a < b < NPROC && p1.table@[a].inner.state != ProcState::Unused
            && p1.table@[b].inner.state != ProcState::Unused implies p1.table@[a].inner.pid
        != p1.table@[b].inner.pid by {
        assert(p0.table@[a].inner.pid != p0.table@[b].inner.pid);
    }
}

/// The table after an exit, in the order in which it changes.
proof fn lemma_exited(
    p0: ProcTable,
    k0: KmemState,
    f0: FilesState,
    id: usize,
    status: i64,
    p1: ProcTable,
    k1: KmemState,
    f1: FilesState,
)
    requires
        p0.wf(),
        id < NPROC,
        p0.parents@[id as int] is Some,
        p0.parents@[id as int] != Some(id),
        p0.table@[id as int].inner.state != ProcState::Unused,
        exited(p0, k0, f0, id, status, p1, k1, f1),
    ensures
        same_ids(p0.inner(), p1.inner()),
        p1.inner()[id as int] == (ProcInner {
            xstate: status,
            state: ProcState::Zombie,
            ..p0.table@[id as int].inner
        }),
        p1.parents@[id as int] == p0.parents@[id as int],
        p1.parents@.len() == NPROC,
        ({
            let parent = p0.parents@[id as int]->0;
            parent < NPROC && parent != id && p1.inner()[parent as int].state
                == ProcState::Sleeping ==> p1.inner()[parent as int].channel != Some(
                Channel::Proc(parent),
            )
        }),
        p1.pid_count == p0.pid_count,
{
    reveal(exited);
    let p = p0.table@[id as int];
    let (s, wakes, freed) = f0.close_all(p.data.open_files@, crate::param::NOFILE as int)->0;
    let parent = p0.parents@[id as int]->0;
    let a = p0.inner();
    let b = wake_all(a, id as int, wakes);
    lemma_wake_all(a, id as int, wakes);
    let adopts = if p0.parents@.contains(Some(id)) {
        Some(Channel::Proc(p0.init))
    } else {
        None
    };
    let c = wake(b, id as int, adopts);
    lemma_wake(b, id as int, adopts);
    let d = wake(c, id as int, Some(Channel::Proc(parent)));
    lemma_wake(c, id as int, Some(Channel::Proc(parent)));
    let e = d.update(
        id as int,
        ProcInner { xstate: status, state: ProcState::Zombie, ..p.inner },
    );
    assert(p1.inner() == e);
    assert forall|j: int| 0 <= j < a.len() implies (#[trigger] e[j]).pid == a[j].pid && ((e[j].state
        == ProcState::Unused) == (a[j].state == ProcState::Unused)) by {
        assert(b[j].pid == a[j].pid);
        assert(c[j].pid == b[j].pid);
        assert(d[j].pid == c[j].pid);
        assert(a[id as int] == p.inner);
    }
}

/// What an exit leaves of the process itself.
pub(crate) proof fn lemma_exited_self(
    p0: ProcTable,
    k0: KmemState,
    f0: FilesState,
    id: usize,
    status: i64,
    p1: ProcTable,
    k1: KmemState,
    f1: FilesState,
)
    requires
        id < NPROC,
        p0.table@.len() == NPROC,
        p1.table@.len() == NPROC,
        exited(p0, k0, f0, id, status, p1, k1, f1),
    ensures
        p1.table@[id as int].inner == (ProcInner {
            xstate: status,
            state: ProcState::Zombie,
            ..p0.table@[id as int].inner
        }),
{
    reveal(exited);
    let p = p0.table@[id as int];
    let (s, wakes, freed) = f0.close_all(p.data.open_files@, crate::param::NOFILE as int)->0;
    let b = wake_all(p0.inner(), id as int, wakes);
    let c = wake(
        b,
        id as int,
        if p0.parents@.contains(Some(id)) {
            Some(Channel::Proc(p0.init))
        } else {
            None
        },
    );
    let parents = p1.parents@;
    let d = wake(c, id as int, Some(Channel::Proc(parents[id as int]->0)));
    let e = d.update(
        id as int,
        ProcInner { xstate: status, state: ProcState::Zombie, ..p.inner },
    );
    lemma_wake_all(p0.inner(), id as int, wakes);
    assert(p1.inner() == e);
    assert(p1.inner()[id as int] == p1.table@[id as int].inner);
}

/// An exit changes no PID.
pub proof fn law_exit_keeps_pids(
    p0: ProcTable,
    k0: KmemState,
    f0: FilesState,
    id: usize,
    status: i64,
    p1: ProcTable,
    k1: KmemState,
    f1: FilesState,
)
    requires
        p0.wf(),
        p0.pids_unique(),
        id < NPROC,
        p0.parents@[id as int] is Some,
        p0.parents@[id as int] != Some(id),
        p0.table@[id as int].inner.state != ProcState::Unused,
        exited(p0, k0, f0, id, status, p1, k1, f1),
    ensures
        p1.pids_unique(),
{
    lemma_exited(p0, k0, f0, id, status, p1, k1, f1);
    lemma_same_ids(p0, p1);
}

/// Waiting for a child changes no PID of another process.
pub proof fn law_wait_keeps_pids(
    p0: ProcTable,
    k0: KmemState,
    id: usize,
    addr: VA,
    p1: ProcTable,
    k1: KmemState,
    r: Waited,
)
    requires
        p0.wf(),
        p0.pids_unique(),
        id < NPROC,
        p0.zombie(id, 0) != id,
        waited(p0, k0, id, addr, p1, k1, r),
    ensures
        p1.pids_unique(),
{
    reveal(waited);
    let j = p0.zombie(id, 0);
    lemma_zombie(p0, id, 0);
    if j < NPROC {
        assert forall|i: int| 0 <= i < NPROC && i != j implies (#[trigger] p1.table@[i]).inner
            == p0.table@[i].inner by {
            if i == id {
            } else {
                assert(p1.table@[i] == p0.table@[i]);
            }
        }
        assert forall|a: int, b: int|
            #![trigger p1.table@[a], p1.table@[b]]
            0 <= a < b < NPROC && p1.table@[a].inner.state != ProcState::Unused
                && p1.table@[b].inner.state != ProcState::Unused implies p1.table@[a].inner.pid
            != p1.table@[b].inner.pid by {
            assert(p0.table@[a].inner.pid != p0.table@[b].inner.pid);
        }
    }
}

/// The child that is found has exited, and none before it has.
pub(crate) proof fn lemma_zombie(p: ProcTable, id: usize, j: int)
    requires
        0 <= j <= NPROC,
    ensures
        j <= p.zombie(id, j) <= NPROC,
        p.zombie(id, j) < NPROC ==> p.is_child(p.zombie(id, j), id) && p.table@[p.zombie(
            id,
            j,
        )].inner.state == ProcState::Zombie,
        forall|i: int|
            j <= i < p.zombie(id, j) ==> !(#[trigger] p.is_child(i, id) && p.table@[i].inner.state
                == ProcState::Zombie),
    decreases NPROC - j,
{
    if j < NPROC && !(p.is_child(j, id) && p.table@[j].inner.state == ProcState::Zombie) {
        lemma_zombie(p, id, j + 1);
    }
}

/// A parent that waits learns of the exit of a child: it does not sleep on after it, it finds a
/// child that has exited, and if that is the one, it gets its PID and its status.
pub proof fn law_exit_is_seen(
    p0: ProcTable,
    k0: KmemState,
    f0: FilesState,
    id: usize,
    status: i64,
    p1: ProcTable,
    k1: KmemState,
    f1: FilesState,
    addr: VA,
    p2: ProcTable,
    k2: KmemState,
    r: Waited,
)
    requires
        p0.wf(),
        p1.wf(),
        id < NPROC,
        p0.parents@[id as int] is Some,
        p0.parents@[id as int]->0 < NPROC,
        p0.parents@[id as int] != Some(id),
        p0.table@[id as int].inner.state != ProcState::Unused,
        exited(p0, k0, f0, id, status, p1, k1, f1),
        waited(p1, k1, p0.parents@[id as int]->0, addr, p2, k2, r),
    ensures
        ({
            let parent = p0.parents@[id as int]->0;
            let found = p1.zombie(parent, 0);
            &&& !(p1.table@[parent as int].inner.state == ProcState::Sleeping
                && p1.table@[parent as int].inner.channel == Some(Channel::Proc(parent)))
            &&& found <= id
            &&& r == Waited::Exited(p1.table@[found].inner.pid)
            &&& found == id ==> r == Waited::Exited(p0.table@[id as int].inner.pid)
                && p1.table@[id as int].inner.xstate == status
        }),
{
    lemma_exited(p0, k0, f0, id, status, p1, k1, f1);
    let parent = p0.parents@[id as int]->0;
    lemma_zombie(p1, parent, 0);
    assert(p1.inner()[id as int] == p1.table@[id as int].inner);
    assert(p1.inner()[parent as int] == p1.table@[parent as int].inner);
    assert(p0.inner()[id as int] == p0.table@[id as int].inner);
    assert(p1.is_child(id as int, parent));
    reveal(waited);
}

/// How many of the descriptors from `from` up to `to` stand for file `id`.
pub open spec fn mentions(open: Seq<Option<File>>, from: int, to: int, id: int) -> int
    decreases to - from,
{
    if from >= to {
        0
    } else {
        mentions(open, from, to - 1, id) + match open[to - 1] {
            Some(f) => if f.id == id {
                1int
            } else {
                0
            },
            None => 0,
        }
    }
}

/// One more at the front.
proof fn lemma_mentions_first(open: Seq<Option<File>>, from: int, to: int, id: int)
    requires
        from < to,
    ensures
        mentions(open, from, to, id) == mentions(open, from + 1, to, id) + match open[from] {
            Some(f) => if f.id == id {
                1int
            } else {
                0
            },
            None => 0,
        },
    decreases to - from,
{
    if from + 1 < to {
        lemma_mentions_first(open, from, to - 1, id);
    } else {
        assert(mentions(open, from, from, id) == 0);
        assert(mentions(open, from + 1, to, id) == 0);
    }
}

/// A fork counts each file once more for each descriptor that the child has of it, and changes
/// nothing else about files.
pub proof fn law_fork_counts_files(t: TableState, open: Seq<Option<File>>, i: int)
    requires
        t.dup_all(open, i) is Some,
        t.refs.len() == NFILE,
        0 <= i <= open.len(),
    ensures
        ({
            let u = t.dup_all(open, i)->0;
            &&& forall|id: int|
                0 <= id < NFILE ==> #[trigger] u.refs[id] == t.refs[id] + mentions(
                    open,
                    i,
                    open.len() as int,
                    id,
                )
            &&& u.inner == t.inner && u.holder == t.holder && u.refs.len() == NFILE
        }),
    decreases open.len() - i,
{
    if i < open.len() {
        let next = match open[i] {
            None => t,
            Some(f) => t.dup(f.id as int)->0,
        };
        law_fork_counts_files(next, open, i + 1);
        let u = t.dup_all(open, i)->0;
        assert forall|id: int| 0 <= id < NFILE implies #[trigger] u.refs[id] == t.refs[id]
            + mentions(open, i, open.len() as int, id) by {
            lemma_mentions_first(open, i, open.len() as int, id);
        }
    }
}

/// An exit counts each file once less for each descriptor that the process had of it.
pub proof fn law_exit_counts_files(f: FilesState, open: Seq<Option<File>>, n: int)
    requires
        f.close_all(open, n) is Some,
        f.table.refs.len() == NFILE,
        0 <= n <= open.len(),
    ensures
        ({
            let s = (f.close_all(open, n)->0).0;
            &&& forall|id: int|
                0 <= id < NFILE ==> #[trigger] s.table.refs[id] == f.table.refs[id] - mentions(
                    open,
                    0,
                    n,
                    id,
                )
            &&& s.table.refs.len() == NFILE
        }),
    decreases n,
{
    if n > 0 {
        law_exit_counts_files(f, open, n - 1);
    }
}

/// A child that exits leaves each file counted as often as before it was made.
pub proof fn law_child_gives_files_back(f: FilesState, s: FilesState, open: Seq<Option<File>>)
    requires
        f.table.refs.len() == NFILE,
        f.table.dup_all(open, 0) == Some(s.table),
        s.close_all(open, open.len() as int) is Some,
    ensures
        ({
            let e = (s.close_all(open, open.len() as int)->0).0;
            forall|id: int| 0 <= id < NFILE ==> #[trigger] e.table.refs[id] == f.table.refs[id]
        }),
{
    law_fork_counts_files(f.table, open, 0);
    law_exit_counts_files(s, open, open.len() as int);
    let e = (s.close_all(open, open.len() as int)->0).0;
    assert forall|id: int| 0 <= id < NFILE implies #[trigger] e.table.refs[id]
        == f.table.refs[id] by {
        assert(s.table.refs[id] == f.table.refs[id] + mentions(open, 0, open.len() as int, id));
    }
}

} // verus!
