//! What the calls on processes mean for those who make them.
use vstd::prelude::*;
use crate::abi::SysError;
use crate::error::KernelError;
use crate::file::FilesState;
use crate::kalloc::KmemState;
use crate::le::u64_bytes;
use crate::param::{NOFILE, NPROC};
use crate::pipe::Progress;
use crate::proc::exit::{exited, wake};
use crate::proc::fork::{can_fork, forked, with_less};
use crate::proc::laws::lemma_zombie;
use crate::proc::wait::{can_wait, waited, Waited};
use crate::proc::{
    Channel,
    Code,
    Pid,
    ProcInner,
    ProcState,
    ProcTable,
    TrapFrame,
};
use crate::riscv::{round_up, PGSIZE};
use crate::sysproc::{slept, struck};
use crate::vm::bytes::law_copy_to_bytes;
use crate::vm::laws::law_fork_shares;
use crate::vm::usermem::{UserMem, UPAGES};
use crate::vm::VA;

verus! {

/// The memory up to `end` is the same.
pub open spec fn same_memory(m: UserMem, m1: UserMem, end: int) -> bool {
    forall|a: int|
        0 <= a < end ==> #[trigger] m1.at(a) == m.at(a) && (m.at(a) ==> m1.byte(a) == m.byte(a))
}

/// Process `i` is a new child of process `id`, and its copy.
pub open spec fn is_copy(
    p0: ProcTable,
    k0: KmemState,
    id: int,
    p1: ProcTable,
    k1: KmemState,
    i: int,
    pid: Pid,
) -> bool {
    let p = p0.table@[id].data;
    let c = p1.table@[i].data;
    let end = round_up(p.size as int);
    &&& 0 <= i < NPROC
    &&& i != id
    &&& p0.table@[i].inner.state == ProcState::Unused
    &&& p1.table@[i].inner.state == ProcState::Runnable
    &&& p1.table@[i].inner.pid == pid
    &&& !p1.table@[i].inner.killed
    &&& p1.parents@[i] == Some(id as usize)
    // it goes on where the parent does, with 0 for the result of the call
    &&& c.trapframe->0.frame == (TrapFrame { a0: 0, ..p.trapframe->0.frame })
    // both have the memory that the parent had
    &&& c.size == p.size
    &&& same_memory(p.mem(k0), c.mem(k1), end)
    &&& same_memory(p.mem(k0), p.mem(k1), end)
    // and the same files, directory and name
    &&& c.open_files@.len() == p0.table@[i].data.open_files@.len()
    &&& forall|fd: int|
        0 <= fd < c.open_files@.len() && p.open_files@[fd] is Some ==> #[trigger] c.open_files@[fd]
            == p.open_files@[fd]
    &&& c.cwd == p.cwd
    &&& c.name@ == p.name@
}

/// A fork makes one more process, a copy of the one that made the call, which gets the PID of the
/// copy. No other process is changed.
pub proof fn law_fork(
    p0: ProcTable,
    k0: KmemState,
    f0: FilesState,
    id: usize,
    code: Code,
    p1: ProcTable,
    k1: KmemState,
    f1: FilesState,
    r: Result<Pid, KernelError>,
)
    requires
        can_fork(p0, k0, f0, id, code),
        forked(p0, k0, f0, id, code, p1, k1, f1, r),
        p0.table@[id as int].data.size <= UPAGES * PGSIZE,
    ensures
        match r {
            Ok(pid) => exists|i: int| #[trigger]
                is_copy(p0, k0, id as int, p1, k1, i, pid) && forall|j: int|
                    0 <= j < NPROC && j != i ==> #[trigger] p1.table@[j] == p0.table@[j]
                        && p1.parents@[j] == p0.parents@[j],
            Err(_) => p1.table@[id as int] == p0.table@[id as int] && p1.parents == p0.parents && f1
                == f0,
        },
{
    reveal(can_fork);
    reveal(forked);
    let p = p0.table@[id as int].data;
    let i = p0.first_unused(0);
    p0.lemma_first_unused(0);
    if let Ok(pid) = r {
        let end = round_up(p.size as int) / (PGSIZE as int);
        let m = with_less(p.mem(k0), 4);
        let fresh = UserMem::fresh((k0.free.len() - 4) as nat);
        law_fork_shares(m, fresh, 0, end);
        let f = m.share(fresh, 0, end)->0;
        let c = p1.table@[i].data;
        assert forall|a: int| 0 <= a < round_up(p.size as int) implies #[trigger] c.mem(k1).at(a)
            == p.mem(k0).at(a) && (p.mem(k0).at(a) ==> c.mem(k1).byte(a) == p.mem(k0).byte(a)) by {
            let n = a / (PGSIZE as int);
            assert(0 <= n < end);
            assert(f.child.pages.contains_key(n) == (fresh.pages.contains_key(n)
                || m.pages.contains_key(n)));
            assert(!fresh.pages.contains_key(n));
        }
        assert forall|a: int| 0 <= a < round_up(p.size as int) implies #[trigger] p.mem(k1).at(a)
            == p.mem(k0).at(a) && (p.mem(k0).at(a) ==> p.mem(k1).byte(a) == p.mem(k0).byte(a)) by {
            let n = a / (PGSIZE as int);
            assert(f.parent.pages.contains_key(n) == m.pages.contains_key(n));
        }
        assert(is_copy(p0, k0, id as int, p1, k1, i, pid));
    }
}

/// A process that waits gets a child that has exited if there is one: its PID, and at `addr`, unless
/// that is 0, its status. The child is gone. Without one it sleeps as long as it has children and was
/// not killed.
pub proof fn law_wait(
    p0: ProcTable,
    k0: KmemState,
    id: usize,
    addr: VA,
    p1: ProcTable,
    k1: KmemState,
    r: Waited,
)
    requires
        can_wait(p0, k0, id, addr),
        waited(p0, k0, id, addr, p1, k1, r),
        p0.table@[id as int].data.mem(k0).whole(),
    ensures
        match r {
            Waited::Exited(pid) => exists|j: int| #[trigger]
                p0.is_child(j, id) && p0.table@[j].inner.state == ProcState::Zombie
                    && p0.table@[j].inner.pid == pid && p1.table@[j].inner.state
                    == ProcState::Unused && p1.parents@[j] is None && j != id && status_shown(
                    p0.table@[id as int].data.mem(k0),
                    p1.table@[id as int].data.mem(k1),
                    addr,
                    p0.table@[j].inner.xstate,
                ) && forall|i: int|
                    0 <= i < NPROC && i != id && i != j ==> #[trigger] p1.table@[i] == p0.table@[i],
            Waited::Nobody => {
                &&& p1 == p0 && k1 == k0
                &&& forall|j: int| #[trigger]
                    p0.is_child(j, id) ==> p0.table@[j].inner.state != ProcState::Zombie
                &&& p0.table@[id as int].inner.killed || forall|j: int| !p0.is_child(j, id)
            },
            Waited::Sleep(c) => {
                &&& p1 == p0 && k1 == k0
                &&& c == Channel::Proc(id)
                &&& forall|j: int| #[trigger]
                    p0.is_child(j, id) ==> p0.table@[j].inner.state != ProcState::Zombie
                &&& !p0.table@[id as int].inner.killed
                &&& exists|j: int| p0.is_child(j, id)
            },
        },
{
    reveal(can_wait);
    reveal(waited);
    lemma_zombie(p0, id, 0);
    let j = p0.zombie(id, 0);
    if j < NPROC {
        let m = p0.table@[id as int].data.mem(k0);
        let size = p0.table@[id as int].data.size as int;
        let m1 = p1.table@[id as int].data.mem(k1);
        let bytes = u64_bytes(p0.table@[j].inner.xstate as u64);
        m.lemma_same_within(m, 0, 0);
        if addr.0 != 0 {
            law_copy_to_bytes(m, size, addr.0 as int, bytes);
            let m2 = (m.copy_to(size, addr.0 as int, bytes)->0).0;
            assert forall|i: int| 0 <= i < bytes.len() implies #[trigger] m1.shows_one(
                addr.0 as int,
                bytes,
                i,
            ) by {
                assert(m2.shows_one(addr.0 as int, bytes, i));
                assert(m2.pages.contains_key((addr.0 + i) / (PGSIZE as int)));
            }
            assert forall|a: int|
                0 <= a && !(addr.0 <= a < addr.0 + 8) && a / (PGSIZE as int) < UPAGES implies #[trigger] m.byte_kept(
                m1,
                a,
            ) by {
                assert(m.byte_kept(m2, a));
                assert(m2.pages.contains_key(a / (PGSIZE as int)) == m1.pages.contains_key(
                    a / (PGSIZE as int),
                ));
            }
        } else {
            assert forall|a: int|
                0 <= a && a / (PGSIZE as int) < UPAGES implies #[trigger] m.byte_kept(m1, a) by {
                assert(m.pages.contains_key(a / (PGSIZE as int)) == m1.pages.contains_key(
                    a / (PGSIZE as int),
                ));
            }
        }
        assert(p0.is_child(j, id));
        assert(p0.wf());
        assert(p1.parents@[j] is None);
    }
}

/// The status stands at `addr`, unless that is 0, and no other byte of the process is changed.
pub open spec fn status_shown(m: UserMem, m1: UserMem, addr: VA, status: i64) -> bool {
    if addr.0 == 0 {
        m.only_within(m1, 0, 0)
    } else {
        &&& m1.shows(addr.0 as int, u64_bytes(status as u64))
        &&& m.only_within(m1, addr.0 as int, addr.0 + 8)
    }
}

/// A process that exits leaves its children to init, and no others, and has no file open any more.
pub proof fn law_exit(
    p0: ProcTable,
    k0: KmemState,
    f0: FilesState,
    id: usize,
    status: i64,
    p1: ProcTable,
    k1: KmemState,
    f1: FilesState,
)
    requires
        p0.wf(),
        id < NPROC,
        exited(p0, k0, f0, id, status, p1, k1, f1),
    ensures
        forall|j: int|
            0 <= j < NPROC ==> #[trigger] p1.parents@[j] == (if p0.parents@[j] == Some(id) {
                Some(p0.init)
            } else {
                p0.parents@[j]
            }),
        p1.table@[id as int].data.open_files@.len() == NOFILE,
        forall|fd: int|
            0 <= fd < NOFILE ==> #[trigger] p1.table@[id as int].data.open_files@[fd] is None,
{
    reveal(exited);
}

/// Only the process with the PID is killed: it sleeps no longer and will end. Whether there is one is
/// what the caller learns.
pub proof fn law_kill(p0: ProcTable, pid: Pid, p1: ProcTable, r: Result<u64, SysError>, i: int)
    requires
        p0.wf(),
        p0.pids_unique(),
        struck(p0, pid, p1, r),
        0 <= i < NPROC,
    ensures
        p0.is_pid(i, pid) ==> {
            &&& r == Ok::<u64, SysError>(0)
            &&& p1.table@[i].inner.killed
            &&& p1.table@[i].inner.state != ProcState::Sleeping
            &&& p0.table@[i].inner.state != ProcState::Sleeping ==> p1.table@[i].inner.state
                == p0.table@[i].inner.state
            &&& p0.table@[i].inner.state == ProcState::Sleeping ==> p1.table@[i].inner.state
                == ProcState::Runnable
            &&& p1.table@[i].inner.pid == pid
        },
        !p0.is_pid(i, pid) ==> p1.table@[i].inner == p0.table@[i].inner,
        (forall|j: int| !p0.is_pid(j, pid)) ==> r == Err::<u64, SysError>(SysError::NoProcess),
        p1.table@[i].data == p0.table@[i].data,
        p1.parents == p0.parents,
{
    if p0.is_pid(i, pid) {
        assert forall|j: int| 0 <= j < i implies !p0.is_pid(j, pid) by {
            assert(p0.table@[j].inner.state != ProcState::Unused ==> p0.table@[j].inner.pid
                != p0.table@[i].inner.pid);
        }
    }
}

/// A process that sleeps for `duration` ticks goes on at the first look at the clock that comes that
/// much later than the first one, not earlier; or with an error, if it was killed.
pub proof fn law_sleep(duration: i64, first: u64, now: u64, killed: bool)
    requires
        first <= now < u64::MAX,
        slept(duration, first, 0, false) is Sleep,
    ensures
        ({
            let started = slept(duration, first, 0, false)->Sleep_0;
            let r = slept(duration, now, started, killed);
            &&& slept(duration, first, 0, false)->Sleep_1 == Channel::Ticks
            &&& duration > 0
            &&& now - first >= duration <==> r == Progress::Done(Ok::<u64, SysError>(0))
            &&& now - first < duration && killed ==> r == Progress::Done(
                Err::<u64, SysError>(SysError::Interrupted),
            )
            &&& now - first < duration && !killed ==> r == Progress::Sleep(started, Channel::Ticks)
        }),
{
}

/// A process that asks for `n` bytes more, or fewer, gets its size before, from which on the new ones
/// are. What it keeps is as it was. It cannot give back more than it has.
pub proof fn law_sbrk(m: UserMem, size: u64, n: i64)
    requires
        m.sbrk(size, n) is Some,
        size <= UPAGES * PGSIZE,
    ensures
        ({
            let (m1, size1, r) = m.sbrk(size, n)->0;
            &&& r == (if size + n >= 0 {
                Ok::<u64, SysError>(size)
            } else {
                Err(SysError::OutOfMemory)
            })
            &&& size1 == (if size + n >= 0 {
                size + n
            } else {
                size as int
            })
            &&& n >= 0 || r is Err ==> m1 == m
            // pages that lie wholly beyond the new end are gone, all others are as they were
            &&& n < 0 && r is Ok ==> forall|p: int|
                #![trigger m1.pages.contains_key(p)]
                0 <= p < UPAGES && p < round_up(size as int) / (PGSIZE as int) ==> (
                m1.pages.contains_key(p) <==> m.pages.contains_key(p) && p * PGSIZE < size1) && (
                m1.pages.contains_key(p) ==> m1.pages[p] == m.pages[p])
        }),
{
    let (m1, size1, r) = m.sbrk(size, n)->0;
    if n < 0 && size + n >= 0 {
        let first = round_up(size1 as int) / (PGSIZE as int);
        let end = round_up(size as int) / (PGSIZE as int);
        if first < end {
            lemma_unmapped(m, first, (end - first) as nat);
        }
    }
}

/// Exactly the pages that are taken away are gone.
proof fn lemma_unmapped(m: UserMem, n: int, count: nat)
    ensures
        forall|p: int| #[trigger]
            m.unmap(n, count).pages.contains_key(p) <==> m.pages.contains_key(p) && !(n <= p < n
                + count),
        forall|p: int|
            !(n <= p < n + count) ==> #[trigger] m.unmap(n, count).pages[p] == m.pages[p],
    decreases count,
{
    if count > 0 {
        let next = m.drop_page(n);
        lemma_unmapped(next, n + 1, (count - 1) as nat);
        assert forall|p: int| !(n <= p < n + count) implies #[trigger] m.unmap(n, count).pages[p]
            == m.pages[p] by {
            assert(next.unmap(n + 1, (count - 1) as nat).pages[p] == next.pages[p]);
        }
        assert forall|p: int| #[trigger]
            m.unmap(n, count).pages.contains_key(p) <==> m.pages.contains_key(p) && !(n <= p < n
            + count) by {
            assert(next.unmap(n + 1, (count - 1) as nat).pages.contains_key(p)
                <==> next.pages.contains_key(p) && !(n + 1 <= p < n + count));
        }
    }
}

/// Waking up: exactly those who sleep on the channel can run again, but for the one that wakes them, and
/// nobody else is touched.
pub proof fn law_wake(inner: Seq<ProcInner>, current: int, c: Option<Channel>, i: int)
    requires
        0 <= i < inner.len(),
    ensures
        wake(inner, current, c).len() == inner.len(),
        ({
            let p = wake(inner, current, c)[i];
            if i != current && c is Some && inner[i].state == ProcState::Sleeping && inner[i].channel
                == c {
                p == (ProcInner { state: ProcState::Runnable, ..inner[i] })
            } else {
                p == inner[i]
            }
        }),
{
}

} // verus!
