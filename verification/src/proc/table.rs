//! The process table: states, sleeping and waking, parents and children.
use vstd::prelude::*;
use crate::param::NPROC;
use crate::proc::{Channel, Pid, Proc, ProcInner, ProcState};

verus! {

/// Table of processes
pub struct ProcTable {
    pub table: Vec<Proc>,
    /// `parents[child.id] == Some(parent.id)`
    pub parents: Vec<Option<usize>>,
    /// The next process ID
    pub pid_count: u64,
    /// The first process, which adopts the children of others
    pub init: usize,
}

/// Waking up on `channel`: a sleeper becomes runnable.
pub open spec fn woken(p: ProcInner, channel: Channel) -> ProcInner {
    if p.state == ProcState::Sleeping && p.channel == Some(channel) {
        ProcInner { state: ProcState::Runnable, ..p }
    } else {
        p
    }
}

/// A process that was killed: it runs until it would return to user space, and does not sleep on.
pub open spec fn stricken(p: ProcInner) -> ProcInner {
    ProcInner {
        killed: true,
        state: if p.state == ProcState::Sleeping {
            ProcState::Runnable
        } else {
            p.state
        },
        ..p
    }
}

impl ProcTable {
    /// The public fields of every process.
    pub open spec fn inner(self) -> Seq<ProcInner> {
        self.table@.map_values(|p: Proc| p.inner)
    }

    /// Every slot knows its index, and PIDs start at 1.
    pub open spec fn wf(self) -> bool {
        &&& self.table@.len() == NPROC
        &&& self.parents@.len() == NPROC
        &&& forall|i: int| 0 <= i < NPROC ==> (#[trigger] self.table@[i]).id == i
        &&& self.init < NPROC
        &&& self.pid_count >= 1
    }

    /// No two processes have the same PID, and none has one that is yet to be handed out.
    pub open spec fn pids_unique(self) -> bool {
        &&& forall|i: int|
            0 <= i < NPROC && (#[trigger] self.table@[i]).inner.state != ProcState::Unused
                ==> self.table@[i].inner.pid.0 < self.pid_count
        &&& forall|i: int, j: int|
            #![trigger self.table@[i], self.table@[j]]
            0 <= i < j < NPROC && self.table@[i].inner.state != ProcState::Unused
                && self.table@[j].inner.state != ProcState::Unused ==> self.table@[i].inner.pid
                != self.table@[j].inner.pid
    }

    /// Everything but the public fields of processes is the same.
    pub open spec fn same_but_inner(self, other: ProcTable) -> bool {
        &&& other.table@.len() == self.table@.len()
        &&& forall|i: int|
            0 <= i < self.table@.len() ==> (#[trigger] other.table@[i]).id == self.table@[i].id
                && other.table@[i].data == self.table@[i].data
        &&& other.parents == self.parents
        &&& other.pid_count == self.pid_count
        &&& other.init == self.init
    }

    pub fn new() -> (r: Self)
        ensures
            r.wf(),
            r.pids_unique(),
            forall|i: int|
                0 <= i < NPROC ==> (#[trigger] r.table@[i]).inner == ProcInner::unused()
                    && r.table@[i].data.pagetable is None && r.table@[i].data.trapframe is None,
            r.parents@ == Seq::new(NPROC as nat, |i: int| None::<usize>),
            r.pid_count == 1,
    {
        let mut table: Vec<Proc> = Vec::new();
        let mut parents: Vec<Option<usize>> = Vec::new();
        let mut i: usize = 0;
        while i < NPROC
            invariant
                i <= NPROC,
                table@.len() == i,
                parents@ == Seq::new(i as nat, |i: int| None::<usize>),
                forall|j: int|
                    0 <= j < i ==> (#[trigger] table@[j]).id == j && table@[j].inner
                        == ProcInner::unused() && table@[j].data.pagetable is None
                        && table@[j].data.trapframe is None,
            decreases NPROC - i,
        {
            table.push(Proc::new(i));
            parents.push(None);
            i += 1;
            assert(parents@ =~= Seq::new(i as nat, |i: int| None::<usize>));
        }
        ProcTable { table, parents, pid_count: 1, init: 0 }
    }

    /// Returns a reference to the process at the given index.
    pub fn get(&self, index: usize) -> (r: &Proc)
        requires
            self.wf(),
            index < NPROC,
        ensures
            *r == self.table@[index as int],
    {
        &self.table[index]
    }

    /// Wakes up all processes sleeping on channel, but for the current one.
    pub fn wakeup(&mut self, channel: Channel, current: Option<usize>)
        requires
            old(self).wf(),
        ensures
            final(self).wf(),
            old(self).same_but_inner(*final(self)),
            forall|i: int|
                0 <= i < NPROC ==> (#[trigger] final(self).table@[i]).inner == (if current == Some(
                    i as usize,
                ) {
                    old(self).table@[i].inner
                } else {
                    woken(old(self).table@[i].inner, channel)
                }),
    {
        let ghost t0 = *self;
        let mut i: usize = 0;
        while i < NPROC
            invariant
                i <= NPROC,
                t0.wf(),
                self.wf(),
                t0 == *old(self),
                t0.same_but_inner(*self),
                forall|j: int|
                    0 <= j < NPROC ==> (#[trigger] self.table@[j]).inner == (if j >= i || current
                        == Some(j as usize) {
                        t0.table@[j].inner
                    } else {
                        woken(t0.table@[j].inner, channel)
                    }),
            decreases NPROC - i,
        {
            let is_current = match current {
                Some(c) => c == i,
                None => false,
            };
            if !is_current {
                let inner = self.table[i].inner;
                if inner.state == ProcState::Sleeping {
                    if let Some(c) = inner.channel {
                        if c == channel {
                            self.table[i].inner.state = ProcState::Runnable;
                        }
                    }
                }
            }
            i += 1;
        }
    }

    /// Process `i` is in use and has the given PID.
    pub open spec fn is_pid(self, i: int, pid: Pid) -> bool {
        0 <= i < NPROC && self.table@[i].inner.state != ProcState::Unused
            && self.table@[i].inner.pid == pid
    }

    /// Kills the process with the given pid.
    ///
    /// The victim won't exit until it tries to return to user space.
    pub fn kill(&mut self, pid: Pid) -> (r: bool)
        requires
            old(self).wf(),
        ensures
            final(self).wf(),
            old(self).same_but_inner(*final(self)),
            r == exists|i: int| old(self).is_pid(i, pid),
            forall|i: int|
                0 <= i < NPROC ==> (#[trigger] final(self).table@[i]).inner == (if old(self).is_pid(
                    i,
                    pid,
                ) && forall|j: int| 0 <= j < i ==> !old(self).is_pid(j, pid) {
                    stricken(old(self).table@[i].inner)
                } else {
                    old(self).table@[i].inner
                }),
    {
        let ghost t0 = *self;
        let mut i: usize = 0;
        while i < NPROC
            invariant
                i <= NPROC,
                self.wf(),
                *self == t0,
                t0 == *old(self),
                forall|j: int| 0 <= j < i ==> !t0.is_pid(j, pid),
            decreases NPROC - i,
        {
            let inner = self.table[i].inner;
            if inner.state != ProcState::Unused && inner.pid == pid {
                assert(t0.is_pid(i as int, pid));
                self.table[i].inner.killed = true;
                if inner.state == ProcState::Sleeping {
                    // wakeup process from `sleep()`
                    self.table[i].inner.state = ProcState::Runnable;
                }
                return true;
            }
            i += 1;
        }
        false
    }

    /// Puts process `i` to sleep on `channel`.
    pub fn sleep(&mut self, i: usize, channel: Channel)
        requires
            old(self).wf(),
            i < NPROC,
        ensures
            final(self).wf(),
            old(self).same_but_inner(*final(self)),
            final(self).inner() == old(self).inner().update(
                i as int,
                ProcInner {
                    channel: Some(channel),
                    state: ProcState::Sleeping,
                    ..old(self).table@[i as int].inner
                },
            ),
    {
        self.table[i].inner.channel = Some(channel);
        self.table[i].inner.state = ProcState::Sleeping;
        assert(self.inner() =~= old(self).inner().update(
            i as int,
            ProcInner {
                channel: Some(channel),
                state: ProcState::Sleeping,
                ..old(self).table@[i as int].inner
            },
        ));
    }

    /// Process `i`, which was woken up, goes on.
    pub fn resume(&mut self, i: usize)
        requires
            old(self).wf(),
            i < NPROC,
        ensures
            final(self).wf(),
            old(self).same_but_inner(*final(self)),
            final(self).inner() == old(self).inner().update(
                i as int,
                ProcInner { channel: None, ..old(self).table@[i as int].inner },
            ),
    {
        self.table[i].inner.channel = None;
        assert(self.inner() =~= old(self).inner().update(
            i as int,
            ProcInner { channel: None, ..old(self).table@[i as int].inner },
        ));
    }

    /// Process `i` gives up the CPU for one scheduling round.
    pub fn yield_now(&mut self, i: usize)
        requires
            old(self).wf(),
            i < NPROC,
        ensures
            final(self).wf(),
            old(self).same_but_inner(*final(self)),
            final(self).inner() == old(self).inner().update(
                i as int,
                ProcInner { state: ProcState::Runnable, ..old(self).table@[i as int].inner },
            ),
    {
        self.table[i].inner.state = ProcState::Runnable;
        assert(self.inner() =~= old(self).inner().update(
            i as int,
            ProcInner { state: ProcState::Runnable, ..old(self).table@[i as int].inner },
        ));
    }

    /// One step of the scheduler's round: the first runnable process from `from` on is chosen and
    /// marked running. `None` if there is none up to the end of the table.
    pub fn scheduler(&mut self, from: usize) -> (r: Option<usize>)
        requires
            old(self).wf(),
            from <= NPROC,
        ensures
            final(self).wf(),
            old(self).same_but_inner(*final(self)),
            match r {
                None => *final(self) == *old(self) && forall|i: int|
                    from <= i < NPROC ==> (#[trigger] old(self).table@[i]).inner.state
                        != ProcState::Runnable,
                Some(c) => {
                    &&& from <= c < NPROC
                    &&& old(self).table@[c as int].inner.state == ProcState::Runnable
                    &&& forall|i: int|
                        from <= i < c ==> (#[trigger] old(self).table@[i]).inner.state
                            != ProcState::Runnable
                    &&& final(self).inner() == old(self).inner().update(
                        c as int,
                        ProcInner {
                            state: ProcState::Running,
                            ..old(self).table@[c as int].inner
                        },
                    )
                },
            },
    {
        let mut i: usize = from;
        while i < NPROC
            invariant
                from <= i <= NPROC,
                self.wf(),
                *self == *old(self),
                forall|j: int|
                    from <= j < i ==> (#[trigger] self.table@[j]).inner.state != ProcState::Runnable,
            decreases NPROC - i,
        {
            if self.table[i].inner.state == ProcState::Runnable {
                self.table[i].inner.state = ProcState::Running;
                assert(self.inner() =~= old(self).inner().update(
                    i as int,
                    ProcInner { state: ProcState::Running, ..old(self).table@[i as int].inner },
                ));
                return Some(i);
            }
            i += 1;
        }
        None
    }

    /// Passes the abandoned children of process `original` to init, which is woken up if there
    /// are any.
    pub fn reparent(&mut self, original: usize, current: Option<usize>)
        requires
            old(self).wf(),
        ensures
            final(self).wf(),
            final(self).table@.len() == old(self).table@.len(),
            final(self).pid_count == old(self).pid_count,
            final(self).init == old(self).init,
            final(self).parents@ == old(self).parents@.map_values(
                |p: Option<usize>|
                    if p == Some(original) {
                        Some(old(self).init)
                    } else {
                        p
                    },
            ),
            forall|i: int|
                0 <= i < NPROC ==> {
                    let before = old(self).table@[i];
                    let after = #[trigger] final(self).table@[i];
                    &&& after.id == before.id
                    &&& after.data == before.data
                    &&& after.inner == (if old(self).parents@.contains(Some(original)) && current
                        != Some(i as usize) {
                        woken(before.inner, Channel::Proc(old(self).init))
                    } else {
                        before.inner
                    })
                },
    {
        let ghost t0 = *self;
        let init = self.init;
        let ghost mut any = false;
        let mut i: usize = 0;
        while i < NPROC
            invariant
                i <= NPROC,
                t0 == *old(self),
                t0.wf(),
                self.wf(),
                init == t0.init,
                self.init == t0.init,
                self.pid_count == t0.pid_count,
                self.table@.len() == t0.table@.len(),
                forall|j: int|
                    0 <= j < NPROC ==> #[trigger] self.parents@[j] == (if j < i && t0.parents@[j]
                        == Some(original) {
                        Some(init)
                    } else {
                        t0.parents@[j]
                    }),
                any == exists|j: int| 0 <= j < i && #[trigger] t0.parents@[j] == Some(original),
                forall|j: int|
                    0 <= j < NPROC ==> {
                        let before = t0.table@[j];
                        let after = #[trigger] self.table@[j];
                        &&& after.id == before.id
                        &&& after.data == before.data
                        &&& after.inner == (if any && current != Some(j as usize) {
                            woken(before.inner, Channel::Proc(init))
                        } else {
                            before.inner
                        })
                    },
            decreases NPROC - i,
        {
            let is_child = match self.parents[i] {
                Some(p) => p == original,
                None => false,
            };
            if is_child {
                assert(t0.parents@[i as int] == Some(original));
                self.parents[i] = Some(init);
                self.wakeup(Channel::Proc(init), current);
                proof {
                    any = true;
                }
            }
            i += 1;
        }
        proof {
            assert(any == t0.parents@.contains(Some(original)));
            assert(self.parents@ =~= t0.parents@.map_values(
                |p: Option<usize>|
                    if p == Some(original) {
                        Some(t0.init)
                    } else {
                        p
                    },
            ));
        }
    }

    /// The listing of the processes in use: PID, state and name of each.
    pub fn dump(&self) -> (r: Vec<(Pid, ProcState, Vec<u8>)>)
        requires
            self.wf(),
        ensures
            r@.len() == self.listing(NPROC as int).len(),
            forall|k: int|
                0 <= k < r@.len() ==> {
                    let p = self.table@[self.listing(NPROC as int)[k]];
                    (#[trigger] r@[k]).0 == p.inner.pid && r@[k].1 == p.inner.state && r@[k].2@
                        == p.data.name@
                },
    {
        let mut lines: Vec<(Pid, ProcState, Vec<u8>)> = Vec::new();
        let mut i: usize = 0;
        while i < NPROC
            invariant
                i <= NPROC,
                self.wf(),
                lines@.len() == self.listing(i as int).len(),
                forall|k: int|
                    0 <= k < lines@.len() ==> {
                        let p = self.table@[self.listing(i as int)[k]];
                        (#[trigger] lines@[k]).0 == p.inner.pid && lines@[k].1 == p.inner.state
                            && lines@[k].2@ == p.data.name@
                    },
            decreases NPROC - i,
        {
            let inner = self.table[i].inner;
            if inner.state != ProcState::Unused {
                let mut name: Vec<u8> = Vec::new();
                name.extend_from_slice(self.table[i].data.name.as_slice());
                assert(name@ =~= self.table@[i as int].data.name@);
                lines.push((inner.pid, inner.state, name));
            }
            i += 1;
        }
        lines
    }

    /// The processes in use among the first `n`, in order.
    pub open spec fn listing(self, n: int) -> Seq<int>
        decreases n,
    {
        if n <= 0 {
            seq![]
        } else if self.table@[n - 1].inner.state != ProcState::Unused {
            self.listing(n - 1).push(n - 1)
        } else {
            self.listing(n - 1)
        }
    }
}

/// Waking up touches only processes that sleep on the channel.
pub proof fn law_wakeup_only_sleepers(p: ProcInner, channel: Channel)
    ensures
        woken(p, channel) != p ==> p.state == ProcState::Sleeping && p.channel == Some(channel)
            && woken(p, channel).state == ProcState::Runnable,
        p.state == ProcState::Sleeping && p.channel == Some(channel) ==> woken(p, channel).state
            == ProcState::Runnable,
        woken(p, channel).pid == p.pid,
        woken(p, channel).killed == p.killed,
{
}

/// A process that was killed does not sleep, and nothing else about it changes.
pub proof fn law_killed_does_not_sleep(p: ProcInner)
    ensures
        stricken(p).killed,
        stricken(p).state != ProcState::Sleeping,
        p.state != ProcState::Sleeping ==> stricken(p).state == p.state,
        stricken(p).pid == p.pid,
{
}

/// The processes that are listed are those in use, each once, in the order of the table.
pub proof fn law_listing(p: ProcTable, n: int)
    requires
        0 <= n,
    ensures
        forall|i: int| #[trigger]
            p.listing(n).contains(i) <==> 0 <= i < n && p.table@[i].inner.state != ProcState::Unused,
        forall|a: int, b: int|
            0 <= a < b < p.listing(n).len() ==> #[trigger] p.listing(n)[a] < #[trigger] p.listing(n)[b],
    decreases n,
{
    if n > 0 {
        law_listing(p, n - 1);
        let l = p.listing(n - 1);
        assert forall|a: int| 0 <= a < l.len() implies #[trigger] l[a] < n - 1 by {
            assert(l.contains(l[a]));
        }
        assert forall|i: int| #[trigger]
            p.listing(n).contains(i) <==> 0 <= i < n && p.table@[i].inner.state
                != ProcState::Unused by {
            if p.table@[n - 1].inner.state != ProcState::Unused {
                assert(p.listing(n) == l.push(n - 1));
                assert(p.listing(n)[l.len() as int] == n - 1);
                if l.contains(i) {
                    let a = l.index_of(i);
                    assert(p.listing(n)[a] == i);
                }
                if p.listing(n).contains(i) && i != n - 1 {
                    let a = p.listing(n).index_of(i);
                    assert(l[a] == i);
                }
            }
            assert(l.contains(i) <==> 0 <= i < n - 1 && p.table@[i].inner.state
                != ProcState::Unused);
        }
    }
}

} // verus!
