//! The end of a process: exiting, and waiting for that.
use vstd::prelude::*;
use crate::file::{File, Files, FilesState};
use crate::kalloc::{Kmem, KmemState};
use crate::param::{NOFILE, NPROC};
use crate::proc::table::{woken, ProcTable};
use crate::proc::{Channel, ProcData, ProcInner, ProcState};

verus! {

/// Waking up on a channel, if there is one; the process `current` runs.
pub open spec fn wake(inner: Seq<ProcInner>, current: int, c: Option<Channel>) -> Seq<ProcInner> {
    match c {
        None => inner,
        Some(c) => Seq::new(
            inner.len(),
            |i: int|
                if i == current {
                    inner[i]
                } else {
                    woken(inner[i], c)
                },
        ),
    }
}

/// Waking up on channels, one after the other.
pub open spec fn wake_all(inner: Seq<ProcInner>, current: int, wakes: Seq<Channel>) -> Seq<ProcInner>
    decreases wakes.len(),
{
    if wakes.len() == 0 {
        inner
    } else {
        wake(wake_all(inner, current, wakes.drop_last()), current, Some(wakes.last()))
    }
}

/// The frames after a reference to each page in `freed` was dropped.
pub open spec fn released_all(k: KmemState, freed: Seq<u64>) -> KmemState
    decreases freed.len(),
{
    if freed.len() == 0 {
        k
    } else {
        released_all(k, freed.drop_last()).released(freed.last())
    }
}

impl FilesState {
    /// The pages of pipes are in use, each for its pipe alone.
    pub open spec fn pages_ok(self, k: KmemState) -> bool {
        forall|p: u64| #[trigger]
            self.pipes.contains_key(p) ==> k.frames.contains_key(p) && k.frames[p].refs == 1
    }

    /// Closing the files `open` from `i` on: who is to be woken up, and which pages are free.
    pub open spec fn close_all(self, open: Seq<Option<File>>, i: int) -> Option<
        (FilesState, Seq<Channel>, Seq<u64>),
    >
        decreases i,
    {
        if i <= 0 {
            Some((self, seq![], seq![]))
        } else {
            match self.close_all(open, i - 1) {
                None => None,
                Some((s, wakes, freed)) => match open[i - 1] {
                    None => Some((s, wakes, freed)),
                    Some(f) => match s.close(f.id as int) {
                        None => None,
                        Some((s, c)) => Some(
                            (
                                s,
                                match c.wake {
                                    Some(w) => wakes.push(w),
                                    None => wakes,
                                },
                                match c.freed {
                                    Some(p) => freed.push(p),
                                    None => freed,
                                },
                            ),
                        ),
                    },
                },
            }
        }
    }
}

impl ProcTable {
    /// Wakes up whoever sleeps on `channel`, if there is one.
    pub fn wake_up(&mut self, channel: Option<Channel>, current: usize)
        requires
            old(self).wf(),
        ensures
            final(self).wf(),
            old(self).same_but_inner(*final(self)),
            final(self).inner() == wake(old(self).inner(), current as int, channel),
            current < NPROC ==> final(self).table@[current as int] == old(
                self,
            ).table@[current as int],
    {
        if let Some(c) = channel {
            self.wakeup(c, Some(current));
            proof {
                assert(self.inner() =~= wake(old(self).inner(), current as int, channel));
            }
        }
    }
}

/// Closes a file for process `id`: gives back the page of a pipe that is gone, and wakes up who
/// waits at its other end.
pub fn close_file(file: File, procs: &mut ProcTable, kmem: &mut Kmem, files: &mut Files, id: usize)
    requires
        old(procs).wf(),
        old(kmem).wf(),
        old(files).wf(),
        id < NPROC,
        old(files)@.pages_ok(old(kmem)@),
        old(files)@.close(file.id as int) is Some,
    ensures
        final(procs).wf(),
        final(kmem).wf(),
        final(files).wf(),
        old(procs).same_but_inner(*final(procs)),
        final(files)@.pages_ok(final(kmem)@),
        final(procs).table@[id as int] == old(procs).table@[id as int],
        ({
            let (s, c) = old(files)@.close(file.id as int)->0;
            &&& final(files)@ == s
            &&& final(procs).inner() == wake(old(procs).inner(), id as int, c.wake)
            &&& final(kmem)@ == match c.freed {
                Some(p) => old(kmem)@.released(p),
                None => old(kmem)@,
            }
            &&& c.freed matches Some(p) ==> old(files)@.pipes.contains_key(p)
        }),
{
    let closed = file.close(files);
    if let Some(page) = closed.freed {
        kmem.release(page);
    }
    procs.wake_up(closed.wake, id);
    assert(files@.pages_ok(kmem@));
}

/// Process `id` can exit.
#[verifier::opaque]
pub open spec fn can_exit(p0: ProcTable, k0: KmemState, f0: FilesState, id: usize) -> bool {
    &&& p0.wf()
    &&& id < NPROC
    &&& id != p0.init
    &&& p0.parents@[id as int] is Some
    &&& f0.pages_ok(k0)
    &&& {
            let d = p0.table@[id as int].data;
            &&& d.open_files@.len() == NOFILE
            &&& f0.close_all(d.open_files@, NOFILE as int) matches Some((s, w, f))
            &&& s.fs.put_op(d.cwd) is Some
    }
}

/// What the exit of process `id` does.
#[verifier::opaque]
pub open spec fn exited(
    p0: ProcTable,
    k0: KmemState,
    f0: FilesState,
    id: usize,
    status: i64,
    p1: ProcTable,
    k1: KmemState,
    f1: FilesState,
) -> bool {
            let p = p0.table@[id as int];
            let (s, wakes, freed) = f0.close_all(p.data.open_files@, NOFILE as int)->0;
            let init = p0.init;
            let inner = wake_all(p0.inner(), id as int, wakes);
            let inner = wake(
                inner,
                id as int,
                if p0.parents@.contains(Some(id)) {
                    Some(Channel::Proc(init))
                } else {
                    None
                },
            );
            let parents = p0.parents@.map_values(
                |q: Option<usize>|
                    if q == Some(id) {
                        Some(init)
                    } else {
                        q
                    },
            );
            let inner = wake(inner, id as int, Some(Channel::Proc(parents[id as int]->0)));
            &&& f1 == (FilesState { fs: s.fs.put_op(p.data.cwd)->0, ..s })
            &&& k1 == released_all(k0, freed)
            &&& p1.parents@ == parents
            &&& p1.inner() == inner.update(
                id as int,
                ProcInner { xstate: status, state: ProcState::Zombie, ..p.inner },
            )
            &&& p1.pid_count == p0.pid_count
            &&& p1.init == init
            &&& p1.table@[id as int].data.open_files@ == Seq::new(
                NOFILE as nat,
                |i: int| None::<File>,
            )
            &&& p1.table@[id as int].data == (ProcData {
                open_files: p1.table@[id as int].data.open_files,
                ..p.data
            })
            &&& forall|j: int|
                0 <= j < NPROC && j != id ==> (#[trigger] p1.table@[j]).data == p0.table@[j].data
}

/// Exits process `id` with the given status.
///
/// An exited process remains in the zombie state until its parent calls `wait`.
pub fn exit(procs: &mut ProcTable, kmem: &mut Kmem, files: &mut Files, id: usize, status: i64)
    requires
        old(kmem).wf(),
        old(files).wf(),
        can_exit(*old(procs), old(kmem)@, old(files)@, id),
    ensures
        final(procs).wf(),
        final(kmem).wf(),
        final(files).wf(),
        exited(
            *old(procs),
            old(kmem)@,
            old(files)@,
            id,
            status,
            *final(procs),
            final(kmem)@,
            final(files)@,
        ),
{
    proof {
        reveal(can_exit);
        reveal(exited);
    }
    let ghost t0 = *procs;
    let ghost open = procs.table@[id as int].data.open_files@;
    let ghost k0 = kmem@;
    let ghost s0 = files@;
    // close all open files
    let mut i: usize = 0;
    let ghost mut wakes: Seq<Channel> = seq![];
    let ghost mut freed: Seq<u64> = seq![];
    while i < NOFILE
        invariant
            i <= NOFILE,
            id < NPROC,
            t0 == *old(procs),
            t0.wf(),
            procs.wf(),
            kmem.wf(),
            files.wf(),
            open.len() == NOFILE,
            open == t0.table@[id as int].data.open_files@,
            files@.pages_ok(kmem@),
            s0.close_all(open, i as int) == Some((files@, wakes, freed)),
            s0.close_all(open, NOFILE as int) is Some,
            kmem@ == released_all(k0, freed),
            procs.inner() == wake_all(t0.inner(), id as int, wakes),
            procs.parents == t0.parents,
            procs.pid_count == t0.pid_count,
            procs.init == t0.init,
            procs.table@[id as int].inner == t0.table@[id as int].inner,
            procs.table@[id as int].data.open_files@.len() == NOFILE,
            forall|j: int|
                0 <= j < NOFILE ==> #[trigger] procs.table@[id as int].data.open_files@[j] == (if j
                    < i {
                    None
                } else {
                    open[j]
                }),
            procs.table@[id as int].data == (ProcData {
                open_files: procs.table@[id as int].data.open_files,
                ..t0.table@[id as int].data
            }),
            forall|j: int|
                0 <= j < NPROC && j != id ==> (#[trigger] procs.table@[j]).data
                    == t0.table@[j].data,
        decreases NOFILE - i,
    {
        proof {
            lemma_close_all(s0, open, i + 1, NOFILE as int);
        }
        let ghost before = *procs;
        let file = procs.table[id].data.open_files[i];
        procs.table[id].data.open_files[i] = None;
        assert(procs.inner() =~= before.inner());
        if let Some(file) = file {
            let ghost s1 = files@;
            close_file(file, procs, kmem, files, id);
            proof {
                let c = (s1.close(file.id as int)->0).1;
                if let Some(w) = c.wake {
                    assert(wakes.push(w).drop_last() =~= wakes);
                    wakes = wakes.push(w);
                }
                if let Some(p) = c.freed {
                    assert(freed.push(p).drop_last() =~= freed);
                    freed = freed.push(p);
                }
            }
        }
        i += 1;
    }
    assert(procs.table@[id as int].data.open_files@ =~= Seq::new(
        NOFILE as nat,
        |i: int| None::<File>,
    ));
    let cwd = procs.table[id].data.cwd;
    files.fs.begin_op();
    cwd.put(&mut files.fs);
    files.fs.end_op();
    let ghost t1 = *procs;
    // give any children to init
    procs.reparent(id, Some(id));
    proof {
        assert(procs.inner() =~= wake(
            t1.inner(),
            id as int,
            if t0.parents@.contains(Some(id)) {
                Some(Channel::Proc(t0.init))
            } else {
                None
            },
        ));
    }
    // parent might be sleeping in `wait`
    let parent = procs.parents[id].unwrap();
    procs.wake_up(Some(Channel::Proc(parent)), id);
    let ghost t3 = *procs;
    procs.table[id].inner.xstate = status;
    procs.table[id].inner.state = ProcState::Zombie;
    proof {
        let p = t0.table@[id as int];
        assert(t3.table@[id as int].inner == p.inner);
        assert(procs.inner() =~= t3.inner().update(
            id as int,
            ProcInner { xstate: status, state: ProcState::Zombie, ..p.inner },
        ));
        let s = (s0.close_all(open, NOFILE as int)->0).0;
        assert(files@.pipes =~= s.pipes);
    }
}

/// If more files can be closed then fewer can.
proof fn lemma_close_all(s: FilesState, open: Seq<Option<File>>, i: int, n: int)
    requires
        i <= n,
        s.close_all(open, n) is Some,
    ensures
        s.close_all(open, i) is Some,
    decreases n - i,
{
    if i < n && n > 0 {
        lemma_close_all(s, open, i, n - 1);
    }
}

} // verus!
