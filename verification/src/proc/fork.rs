//! Growing and copying processes.
use vstd::prelude::*;
use crate::error::KernelError;
use crate::file::{File, Files, FilesState, TableState};
use crate::kalloc::{page_ok, Kmem, KmemState};
use crate::param::{NKSTACK_PAGES, NOFILE, NPROC};
use crate::proc::life::{lemma_fresh_ok, Code};
use crate::proc::table::ProcTable;
use crate::proc::{Pid, ProcData, ProcInner, ProcState, TrapFrame};
use crate::riscv::{page_of, round_up, PGSIZE, PTE_R, PTE_U, PTE_W};
use crate::vm::fork::lemma_unmap;
use crate::vm::usermem::{UserMem, UPAGES};
use crate::vm::laws::{law_fork_shares, law_fork_undone};
use crate::vm::uvm::{kmem_ok, lemma_flags, lemma_mem, Uvm};
use crate::vm::{flag, VmError};

verus! {

impl UserMem {
    /// Growing or shrinking a process of `size` by `n` bytes: its memory and size, and the result.
    /// `None` where a size overflows or reaches reserved pages.
    pub open spec fn resize(self, size: u64, n: i64, lazy: bool) -> Option<
        (UserMem, u64, Result<u64, KernelError>),
    > {
        if n > 0 {
            if size + n > u64::MAX - 2 * PGSIZE {
                None
            } else if lazy {
                Some((self, (size + n) as u64, Ok((size + n) as u64)))
            } else {
                match self.allocate(size as int, size + n, PTE_W) {
                    None => None,
                    Some((m, Ok(s))) => Some((m, s, Ok(s))),
                    Some((m, Err(e))) => Some((m, size, Err(KernelError::Vm(e)))),
                }
            }
        } else if n < 0 {
            if n == i64::MIN {
                None
            } else if -n > size {
                Some((self, size, Err(KernelError::InvalidArgument)))
            } else if !self.can_deallocate(size as int, size + n) {
                None
            } else {
                Some(
                    (
                        self.deallocate(size as int, size + n),
                        (size + n) as u64,
                        Ok((size + n) as u64),
                    ),
                )
            }
        } else {
            Some((self, size, Ok(size)))
        }
    }
}

impl UserMem {
    /// A process that grows or shrinks has no pages beyond its size if it had none before.
    pub proof fn lemma_resize_within(self, size: u64, n: i64, lazy: bool)
        requires
            self.resize(size, n, lazy) is Some,
        ensures
            ({
                let (m, s, r) = self.resize(size, n, lazy)->0;
                self.within(size as int) || self.within(s as int) ==> m.within(s as int)
            }),
    {
        let (m, s, r) = self.resize(size, n, lazy)->0;
        let old_end = round_up(size as int) / (PGSIZE as int);
        let end = round_up(s as int) / (PGSIZE as int);
        if n > 0 && !lazy {
            self.lemma_add_pages(
                old_end,
                old_end,
                round_up(size + n) / (PGSIZE as int),
                PTE_R | PTE_U | PTE_W,
            );
        } else if n < 0 && -n <= size && end < old_end {
            lemma_unmap(self, end, (old_end - end) as nat);
        }
        if self.within(size as int) || self.within(s as int) {
            assert forall|i: int| #[trigger] m.pages.contains_key(i) && i < UPAGES implies i < end by {
                assert(self.pages.contains_key(i) || old_end <= i < end);
            }
        }
    }
}

/// Grows or shrinks user memory by `n` bytes.
/// The new size is reflected in the process's data and returned.
///
/// If `lazy` is set, positive change in `n` will update the process size but will not immediately
/// allocate memory. This memory will be allocated only when the process accesses it, causing a
/// page fault.
pub fn grow(data: &mut ProcData, kmem: &mut Kmem, n: i64, lazy: bool) -> (r: Result<u64, KernelError>)
    requires
        old(kmem).wf(),
        old(data).ready(old(kmem)@),
        old(data).mem(old(kmem)@).resize(old(data).size, n, lazy) is Some,
    ensures
        final(kmem).wf(),
        Some((final(data).mem(final(kmem)@), final(data).size, r)) == old(data).mem(
            old(kmem)@,
        ).resize(old(data).size, n, lazy),
        (ProcData { size: final(data).size, ..*old(data) }).touched(
            old(kmem)@,
            *final(data),
            final(kmem)@,
        ),
        old(data).settled(old(kmem)@) ==> final(data).settled(final(kmem)@),
{
    let mut size = data.size;
    let ghost d0 = *data;
    let ghost k0 = kmem@;
    proof {
        kmem.lemma_wf();
        data.lemma_touched_refl(kmem@);
        data.mem(k0).lemma_resize_within(size, n, lazy);
    }
    if n > 0 {
        if lazy {
            size = size + n as u64;
        } else {
            match data.pagetable_mut().allocate(kmem, size, size + n as u64, PTE_W) {
                Ok(s) => {
                    size = s;
                },
                Err(e) => {
                    proof {
                        if d0.settled(k0) {
                            d0.lemma_resized(k0, *data, kmem@);
                        }
                    }
                    return Err(KernelError::from(e));
                },
            }
        }
    } else if n < 0 {
        let shrink: u64 = (-n) as u64;
        if shrink > size {
            return Err(KernelError::InvalidArgument);
        }
        size = data.pagetable_mut().deallocate(kmem, size, size - shrink);
    }
    data.size = size;
    proof {
        if d0.settled(k0) {
            d0.lemma_resized(k0, *data, kmem@);
        }
    }
    Ok(size)
}

impl TableState {
    /// Another reference to each of the files `open` from `i` on.
    pub open spec fn dup_all(self, open: Seq<Option<File>>, i: int) -> Option<TableState>
        decreases open.len() - i,
    {
        if i >= open.len() {
            Some(self)
        } else {
            match open[i] {
                None => self.dup_all(open, i + 1),
                Some(f) => match self.dup(f.id as int) {
                    None => None,
                    Some(t) => t.dup_all(open, i + 1),
                },
            }
        }
    }
}

impl FilesState {
    /// Another reference to each of the files `open` and to the directory `cwd`.
    pub open spec fn share(self, open: Seq<Option<File>>, cwd: int) -> Option<FilesState> {
        match self.table.dup_all(open, 0) {
            None => None,
            Some(table) => match self.fs.add_ref(cwd) {
                None => None,
                Some(fs) => Some(FilesState { table, fs, ..self }),
            },
        }
    }
}

/// The descriptors of a child: the parent's, and its own where the parent has none.
pub open spec fn inherited(parent: Seq<Option<File>>, child: Seq<Option<File>>) -> Seq<Option<File>> {
    Seq::new(
        child.len(),
        |i: int|
            if parent[i] is Some {
                parent[i]
            } else {
                child[i]
            },
    )
}

impl UserMem {
    /// No page of the process's own is outside of the first `n`.
    pub open spec fn below(self, n: int) -> bool {
        forall|m: int| #[trigger] self.pages.contains_key(m) && m < UPAGES ==> 0 <= m < n
    }

    /// Sharing keeps the pages of the parent and the reserved ones; if it fails the child has no
    /// pages of its own.
    pub proof fn lemma_share(self, child: UserMem, n: int, end: int)
        requires
            0 <= n <= UPAGES,
            self.pages.contains_key(UPAGES as int),
            self.share(child, n, end) is Some,
            child.below(n),
        ensures
            ({
                let f = self.share(child, n, end)->0;
                &&& f.parent.pages.dom() == self.pages.dom()
                &&& forall|m: int|
                    UPAGES <= m && self.pages.contains_key(m) ==> #[trigger] f.parent.pages[m]
                        == self.pages[m]
                &&& f.result is Ok ==> f.child.below(
                    if n < end {
                        end
                    } else {
                        n
                    },
                )
                &&& f.result is Err ==> f.child.below(0)
                &&& forall|m: int|
                    UPAGES <= m ==> #[trigger] f.child.pages.contains_key(m)
                        == child.pages.contains_key(m)
                &&& forall|m: int|
                    UPAGES <= m && child.pages.contains_key(m) ==> #[trigger] f.child.pages[m]
                        == child.pages[m]
            }),
        decreases end - n,
    {
        if n < end {
            let step = self.share_page(child, n)->0;
            if step.result is Ok {
                assert(step.parent.pages.dom() =~= self.pages.dom());
                assert(n < UPAGES);
                step.parent.lemma_share(step.child, n + 1, end);
            } else {
                let (shape, f, ok) = child.shape.grow(n * PGSIZE, child.left);
                lemma_unmap(UserMem { shape, left: f, ..child }, 0, n as nat);
                assert(step.parent.pages.dom() =~= self.pages.dom());
            }
            let f = self.share(child, n, end)->0;
            assert forall|m: int| UPAGES <= m && child.pages.contains_key(m) implies #[trigger] f.child.pages[m]
                == child.pages[m] by {
                assert(step.child.pages.contains_key(m));
                assert(f.child.pages.contains_key(m));
            }
        }
    }
}

/// Duplicates the files `open`.
fn dup_files(files: &mut Files, open: &Vec<Option<File>>, child: &mut Vec<Option<File>>)
    requires
        old(files).wf(),
        open@.len() == NOFILE,
        old(child)@.len() == NOFILE,
        old(files)@.table.dup_all(open@, 0) is Some,
    ensures
        final(files).wf(),
        Some(final(files)@.table) == old(files)@.table.dup_all(open@, 0),
        final(files)@ == (FilesState { table: final(files)@.table, ..old(files)@ }),
        final(child)@ == inherited(open@, old(child)@),
{
    let ghost want = files@.table.dup_all(open@, 0);
    let mut i: usize = 0;
    while i < NOFILE
        invariant
            i <= NOFILE,
            files.wf(),
            files.pipes == old(files).pipes,
            files.console == old(files).console,
            files.fs == old(files).fs,
            open@.len() == NOFILE,
            child@.len() == NOFILE,
            old(child)@.len() == NOFILE,
            want is Some,
            want == files.table@.dup_all(open@, i as int),
            forall|j: int|
                0 <= j < NOFILE ==> #[trigger] child@[j] == (if j < i && open@[j] is Some {
                    open@[j]
                } else {
                    old(child)@[j]
                }),
        decreases NOFILE - i,
    {
        if let Some(file) = open[i] {
            let dup = file.dup(&mut files.table);
            child[i] = Some(dup);
        }
        i += 1;
    }
    proof {
        assert(files@.pipes =~= old(files)@.pipes);
        assert(child@ =~= inherited(open@, old(child)@));
    }
}

impl ProcTable {
    /// What `fork` needs of the table.
    pub open spec fn can_make(self, code: Code) -> bool {
        &&& self.wf()
        &&& self.tidy()
        &&& page_ok(code.trampoline)
        &&& self.pid_count < u64::MAX
        &&& forall|i: int|
            0 <= i < NPROC ==> (#[trigger] self.table@[i]).data.kstack.0 + NKSTACK_PAGES * PGSIZE
                <= u64::MAX
        &&& forall|i: int|
            0 <= i < NPROC && (#[trigger] self.table@[i]).inner.state == ProcState::Unused
                ==> self.table@[i].data.size == 0 && self.table@[i].data.open_files@.len() == NOFILE
    }
}

/// The memory of a process when `n` frames less are left.
pub open spec fn with_less(m: UserMem, n: int) -> UserMem {
    UserMem { left: (m.left - n) as nat, ..m }
}

/// Process `id` can be forked.
#[verifier::opaque]
pub open spec fn can_fork(p0: ProcTable, k0: KmemState, f0: FilesState, id: usize, code: Code) -> bool {
    &&& p0.can_make(code)
    &&& id < NPROC
    &&& p0.table@[id as int].inner.state != ProcState::Unused
    &&& {
            let d = p0.table@[id as int].data;
            &&& d.settled(k0)
            &&& d.open_files@.len() == NOFILE
            &&& f0.share(d.open_files@, d.cwd.id as int) is Some
            &&& k0.free.len() >= 4 ==> with_less(d.mem(k0), 4).share(
                UserMem::fresh((k0.free.len() - 4) as nat),
                0,
                round_up(d.size as int) / (PGSIZE as int),
            ) is Some
    }
}

/// From `k0` to `k1` the frames that `u` does not own are as they were.
pub open spec fn spared(u: Uvm, k0: KmemState, k1: KmemState) -> bool {
    forall|q: u64| #[trigger]
        k0.frames.contains_key(q) && !u.owns(k0, q) ==> k1.frames.contains_key(q) && k1.frames[q]
            == k0.frames[q]
}

/// What a fork does to frames: those of others are as they were, each page of the parent `u` keeps
/// its contents and has one more reference, and the child `v` has these pages and tables that were
/// free. Neither can write any page until it is copied.
#[verifier::opaque]
pub open spec fn split(u: Uvm, v: Uvm, k0: KmemState, k1: KmemState) -> bool {
    &&& spared(u, k0, k1)
    &&& forall|q: u64| #[trigger]
        u.owns(k0, q) && !u.0.is_node(q) ==> {
            &&& k1.frames.contains_key(q)
            &&& k1.frames[q].content == k0.frames[q].content
            &&& k1.frames[q].refs == k0.frames[q].refs + 1
            &&& v.owns(k1, q)
        }
    &&& forall|q: u64| #[trigger] u.owns(k1, q) == u.owns(k0, q)
    &&& forall|q: u64| #[trigger]
        v.owns(k1, q) ==> (v.0.is_node(q) && k0.free.contains(q)) || (u.owns(k0, q)
            && !u.0.is_node(q))
    &&& forall|q: u64| !#[trigger] u.writes(k1, q)
    &&& forall|q: u64| !#[trigger] v.writes(k1, q)
}

/// What is left of a fork that failed: all frames that were in use are there with the same
/// contents and counts, but for the tables of the parent `u`, which can write no more pages than
/// before.
#[verifier::opaque]
pub open spec fn recovered(u: Uvm, k0: KmemState, k1: KmemState) -> bool {
    &&& spared(u, k0, k1)
    &&& forall|q: u64| #[trigger]
        u.owns(k0, q) && !u.0.is_node(q) ==> k1.frames.contains_key(q) && k1.frames[q]
            == k0.frames[q]
    &&& forall|q: u64| #[trigger] u.owns(k1, q) == u.owns(k0, q)
    &&& forall|q: u64| #[trigger] u.writes(k1, q) ==> u.writes(k0, q)
}

/// What forking process `id` does.
#[verifier::opaque]
pub open spec fn forked(
    p0: ProcTable,
    k0: KmemState,
    f0: FilesState,
    id: usize,
    code: Code,
    p1: ProcTable,
    k1: KmemState,
    f1: FilesState,
    r: Result<Pid, KernelError>,
) -> bool {
    &&& p1.table@[id as int] == p0.table@[id as int]
    &&& p1.table@[id as int].data.settled(k1)
    &&& p0.table@[id as int].data.pagetable->0.same_reserved(
        k0,
        p0.table@[id as int].data.pagetable->0,
        k1,
    )
    &&& {
            let p = p0.table@[id as int].data;
            let i = p0.first_unused(0);
            let left = k0.free.len();
            let f = with_less(p.mem(k0), 4).share(
                UserMem::fresh((left - 4) as nat),
                0,
                round_up(p.size as int) / (PGSIZE as int),
            )->0;
            if i >= NPROC {
                &&& r == Err::<Pid, KernelError>(KernelError::OutOfProc)
                &&& p1 == p0
                &&& k1 == k0
                &&& f1 == f0
            } else if left < 4 {
                &&& r == Err::<Pid, KernelError>(
                    if left == 0 {
                        KernelError::Alloc
                    } else {
                        KernelError::Vm(VmError::Alloc)
                    },
                )
                &&& p0.same_but(p1, i)
                &&& p1.pid_count == p0.pid_count + 1
                &&& p1.table@[i].inner == ProcInner::unused()
                &&& p1.table@[i].data.pagetable is None && p1.table@[i].data.trapframe is None
                &&& p.mem(k1) == p.mem(k0)
                &&& k1.keeps(k0)
                &&& f1 == f0
            } else {
                &&& p1.pid_count == p0.pid_count + 1
                &&& match f.result {
                    Err(e) => {
                        &&& r == Err::<Pid, KernelError>(KernelError::Vm(e))
                        &&& p0.same_but(p1, i)
                        &&& p1.table@[i].inner == ProcInner::unused()
                        &&& p1.table@[i].data.pagetable is None
                        &&& p1.table@[i].data.trapframe is None
                        &&& p.mem(k1).pages == f.parent.pages
                        &&& recovered(p.pagetable->0, k0, k1)
                        &&& f1 == f0
                    },
                    Ok(()) => {
                        let d = p1.table@[i].data;
                        &&& r == Ok::<Pid, KernelError>(Pid(p0.pid_count))
                        &&& p0.table@.len() == p1.table@.len()
                        &&& forall|j: int|
                            0 <= j < NPROC && j != i ==> #[trigger] p1.table@[j] == p0.table@[j]
                        &&& p1.parents@ == p0.parents@.update(i, Some(id))
                        &&& p1.init == p0.init
                        &&& p1.table@[i].inner == (ProcInner {
                            pid: Pid(p0.pid_count),
                            state: ProcState::Runnable,
                            ..ProcInner::unused()
                        })
                        &&& d.settled(k1)
                        &&& d.pagetable->0.trampoline_at(k1, code.trampoline)
                        &&& p.mem(k1) == f.parent
                        &&& d.mem(k1) == f.child
                        &&& split(p.pagetable->0, d.pagetable->0, k0, k1)
                        &&& k0.free.contains(d.trapframe->0.pa)
                        &&& d.size == p.size
                        &&& d.trapframe->0.frame == (TrapFrame { a0: 0, ..p.trapframe->0.frame })
                        &&& d.open_files@ == inherited(
                            p.open_files@,
                            p0.table@[i].data.open_files@,
                        )
                        &&& d.cwd == p.cwd
                        &&& d.name@ == p.name@
                        &&& Some(f1) == f0.share(
                            p.open_files@,
                            p.cwd.id as int,
                        )
                    },
                }
            }
    }
}

/// Creates a new process, copying the parent, which is process `id`.
/// Sets up the child to return as if from `fork()` system call.
#[verifier::rlimit(60)]
pub fn fork(procs: &mut ProcTable, kmem: &mut Kmem, files: &mut Files, id: usize, code: Code) -> (r: Result<
    Pid,
    KernelError,
>)
    requires
        old(kmem).wf(),
        old(files).wf(),
        can_fork(*old(procs), old(kmem)@, old(files)@, id, code),
    ensures
        final(procs).wf(),
        final(kmem).wf(),
        final(files).wf(),
        forked(
            *old(procs),
            old(kmem)@,
            old(files)@,
            id,
            code,
            *final(procs),
            final(kmem)@,
            final(files)@,
            r,
        ),
{
    proof {
        reveal(can_fork);
        reveal(forked);
    }
    let ghost t0 = *procs;
    let ghost k0 = kmem@;
    let ghost p0 = procs.table@[id as int].data;
    proof {
        kmem.lemma_wf();
        p0.pagetable->0.lemma_owns(k0);
        t0.lemma_first_unused(0);
    }
    // allocate process
    let i = match procs.allocate(kmem, code) {
        Ok(i) => i,
        Err(e) => {
            proof {
                kmem.lemma_wf();
                lemma_still_settled(p0, k0, kmem@);
                assert(p0.mem(kmem@) =~= p0.mem(k0));
                assert(files@ =~= old(files)@);
            }
            return Err(e);
        },
    };
    let ghost k1 = kmem@;
    let ghost c1 = procs.table@[i as int].data;
    proof {
        kmem.lemma_wf();
        assert(i != id);
        lemma_still_settled(p0, k0, k1);
        assert(p0.mem(k1) =~= with_less(p0.mem(k0), 4));
        lemma_fresh_ok((k0.free.len() - 4) as nat);
        lemma_new_child(p0, k0, c1, k1);
    }
    // copy user memory from parent to child
    let size = procs.table[id].data.size;
    let mut uvm = procs.table[i].data.pagetable.take().unwrap();
    let copied = procs.table[id].data.pagetable_mut().copy(kmem, &mut uvm, size);
    procs.table[i].data.pagetable = Some(uvm);
    let ghost k2 = kmem@;
    let ghost d2 = procs.table@[i as int].data;
    proof {
        kmem.lemma_wf();
        p0.mem(k1).lemma_share(
            c1.mem(k1),
            0,
            round_up(p0.size as int) / (PGSIZE as int),
        );
        lemma_copied(p0, c1, k1, d2, k2, copied is Ok);
        if copied is Ok {
            lemma_split(p0, c1, k0, k1, d2, k2);
        } else {
            lemma_recovering(p0, c1, k0, k1, d2, k2);
        }
        assert(procs.table@[id as int] == t0.table@[id as int]);
    }
    if let Err(e) = copied {
        procs.table[i].free(kmem);
        proof {
            kmem.lemma_wf();
            lemma_freed_child(p0, d2, k2, kmem@);
            assert forall|q: u64| #[trigger] (d2.pagetable->0).0.is_node(q) implies k0.free.contains(
                q,
            ) by {
                if (c1.pagetable->0).0.is_node(q) {
                    assert(c1.pagetable->0.owns(k1, q));
                }
            }
            lemma_recovered(p0, d2, k0, k2, kmem@);
            assert(files@ =~= old(files)@);
        }
        return Err(KernelError::from(e));
    }
    finish_fork(procs, files, id, i);
    Ok(procs.table[i].inner.pid)
}

/// Gives the child `i` of process `id` what it has from its parent beside memory.
fn finish_fork(procs: &mut ProcTable, files: &mut Files, id: usize, i: usize)
    requires
        old(procs).wf(),
        old(files).wf(),
        id < NPROC,
        i < NPROC,
        id != i,
        old(procs).table@[id as int].data.trapframe is Some,
        old(procs).table@[i as int].data.trapframe is Some,
        old(procs).table@[id as int].data.open_files@.len() == NOFILE,
        old(procs).table@[i as int].data.open_files@.len() == NOFILE,
        old(files)@.share(
            old(procs).table@[id as int].data.open_files@,
            old(procs).table@[id as int].data.cwd.id as int,
        ) is Some,
    ensures
        final(procs).wf(),
        final(files).wf(),
        final(procs).table@.len() == old(procs).table@.len(),
        final(procs).pid_count == old(procs).pid_count,
        final(procs).init == old(procs).init,
        final(procs).parents@ == old(procs).parents@.update(i as int, Some(id)),
        forall|j: int|
            0 <= j < NPROC && j != i ==> #[trigger] final(procs).table@[j] == old(
                procs,
            ).table@[j],
        final(procs).table@[i as int].inner == (ProcInner {
            state: ProcState::Runnable,
            ..old(procs).table@[i as int].inner
        }),
        ({
            let p = old(procs).table@[id as int].data;
            let c = old(procs).table@[i as int].data;
            let d = final(procs).table@[i as int].data;
            &&& d.size == p.size
            &&& d.pagetable == c.pagetable
            &&& d.trapframe is Some
            &&& d.trapframe->0.pa == c.trapframe->0.pa
            &&& d.trapframe->0.frame == (TrapFrame { a0: 0, ..p.trapframe->0.frame })
            &&& d.open_files@ == inherited(p.open_files@, c.open_files@)
            &&& d.cwd == p.cwd
            &&& d.name@ == p.name@
            &&& Some(final(files)@) == old(files)@.share(p.open_files@, p.cwd.id as int)
        }),
{
    procs.table[i].data.size = procs.table[id].data.size;
    // copy saved user registers; fork returns 0 in the child
    let mut trapframe = *procs.table[id].data.trapframe();
    trapframe.a0 = 0;
    *procs.table[i].data.trapframe_mut() = trapframe;
    // increment reference counts on open file descriptors
    let mut open: Vec<Option<File>> = Vec::new();
    std::mem::swap(&mut open, &mut procs.table[i].data.open_files);
    dup_files(files, &procs.table[id].data.open_files, &mut open);
    procs.table[i].data.open_files = open;
    let cwd = procs.table[id].data.cwd.dup(&mut files.fs);
    procs.table[i].data.cwd = cwd;
    let mut name: Vec<u8> = Vec::new();
    name.extend_from_slice(procs.table[id].data.name.as_slice());
    assert(name@ =~= procs.table@[id as int].data.name@);
    procs.table[i].data.name = name;
    procs.parents[i] = Some(id);
    procs.table[i].inner.state = ProcState::Runnable;
    proof {
        assert(files@.pipes =~= old(files)@.pipes);
        assert(Some(files@) == old(files)@.share(
            old(procs).table@[id as int].data.open_files@,
            cwd.id as int,
        ));
    }
}

/// A process whose frames stay stays as it is.
pub(crate) proof fn lemma_still_settled(p: ProcData, k0: KmemState, k1: KmemState)
    requires
        p.settled(k0),
        kmem_ok(k0),
        forall|q: u64| #[trigger]
            k0.frames.contains_key(q) ==> k1.frames.contains_key(q) && k1.frames[q] == k0.frames[q],
    ensures
        p.settled(k1),
        p.mem(k1).pages == p.mem(k0).pages,
        p.mem(k1).shape == p.mem(k0).shape,
        p.pagetable->0.same_reserved(k0, p.pagetable->0, k1),
        forall|q: u64| #[trigger] p.pagetable->0.owns(k1, q) == p.pagetable->0.owns(k0, q),
{
    p.pagetable->0.lemma_owns(k0);
    p.pagetable->0.lemma_untouched(k0, k1);
}

/// A new process shares nothing with the one it is made by.
proof fn lemma_new_child(p: ProcData, k0: KmemState, c: ProcData, k1: KmemState)
    requires
        p.settled(k0),
        kmem_ok(k0),
        kmem_ok(k1),
        p.settled(k1),
        forall|q: u64| #[trigger] p.pagetable->0.owns(k1, q) == p.pagetable->0.owns(k0, q),
        c.settled(k1),
        c.mem(k1).below(0),
        forall|q: u64| #[trigger] c.pagetable->0.owns(k1, q) ==> k0.free.contains(q),
        k0.free.contains(c.trapframe->0.pa),
    ensures
        p.pagetable->0.shares(c.pagetable->0, k1, 0),
        !p.pagetable->0.owns(k1, c.trapframe->0.pa),
        !c.pagetable->0.owns(k1, p.trapframe->0.pa),
{
    p.pagetable->0.lemma_owns(k0);
    let pu = p.pagetable->0;
    let cu = c.pagetable->0;
    assert forall|q: u64| #[trigger] pu.0.is_node(q) implies !cu.0.is_node(q) by {
        assert(pu.owns(k0, q));
        if cu.0.is_node(q) {
            assert(cu.owns(k1, q));
        }
    }
    assert forall|m: int| #[trigger] cu.maps(k1, m) implies false by {
        assert(c.mem(k1).pages.contains_key(m));
    }
}

/// Parent and child after the memory was copied, or could not be.
proof fn lemma_copied(p: ProcData, c: ProcData, k1: KmemState, d: ProcData, k2: KmemState, ok: bool)
    requires
        p.settled(k1),
        c.settled(k1),
        kmem_ok(k1),
        kmem_ok(k2),
        c.size == 0,
        d == (ProcData { pagetable: d.pagetable, ..c }),
        d.pagetable is Some,
        !p.pagetable->0.owns(k1, c.trapframe->0.pa),
        !c.pagetable->0.owns(k1, p.trapframe->0.pa),
        p.pagetable->0.wf(k2),
        d.pagetable->0.wf(k2),
        p.pagetable->0.kept(c.pagetable->0, k1, k2),
        forall|q: u64| #[trigger] p.pagetable->0.owns(k2, q) == p.pagetable->0.owns(k1, q),
        forall|q: u64| #[trigger]
            d.pagetable->0.owns(k2, q) ==> (c.pagetable->0).0.is_node(q) || k1.free.contains(q)
                || p.pagetable->0.owns(k1, q),
        p.mem(k2).pages.dom() == p.mem(k1).pages.dom(),
        forall|m: int|
            UPAGES <= m && p.mem(k1).pages.contains_key(m) ==> #[trigger] p.mem(k2).pages[m]
                == p.mem(k1).pages[m],
        ok ==> d.mem(k2).below(
            if 0 < round_up(p.size as int) / (PGSIZE as int) {
                round_up(p.size as int) / (PGSIZE as int)
            } else {
                0
            },
        ),
        !ok ==> d.mem(k2).below(0),
        p.pagetable->0.same_reserved(k1, p.pagetable->0, k2),
        c.pagetable->0.same_reserved(k1, d.pagetable->0, k2),
        forall|m: int|
            UPAGES <= m ==> #[trigger] d.mem(k2).pages.contains_key(m) == c.mem(
                k1,
            ).pages.contains_key(m),
        forall|m: int|
            UPAGES <= m && c.mem(k1).pages.contains_key(m) ==> #[trigger] d.mem(k2).pages[m]
                == c.mem(k1).pages[m],
    ensures
        p.settled(k2),
        ok ==> forall|e: ProcData|
            e.pagetable == d.pagetable && e.size == p.size && e.trapframe is Some
                && e.trapframe->0.pa == d.trapframe->0.pa ==> #[trigger] e.settled(k2),
        !ok ==> d.settled(k2),
        !p.pagetable->0.owns(k2, d.trapframe->0.pa),
        !d.pagetable->0.owns(k2, p.trapframe->0.pa),
{
    let pu = p.pagetable->0;
    let cu = c.pagetable->0;
    let du = d.pagetable->0;
    let pa = p.trapframe->0.pa;
    let ca = c.trapframe->0.pa;
    assert(pu.owns(k1, pa) == pu.owns(k2, pa));
    assert(!pu.0.is_node(pa) && !cu.0.is_node(pa)) by {
        assert(!pu.owns(k1, pa) && !cu.owns(k1, pa));
    }
    assert(!pu.0.is_node(ca) && !cu.0.is_node(ca)) by {
        assert(!pu.owns(k1, ca) && !cu.owns(k1, ca));
    }
    assert(!du.owns(k2, ca));
    assert(!du.owns(k2, pa));
    assert(p.mem(k2).within(p.size as int)) by {
        assert forall|n: int| #[trigger] p.mem(k2).pages.contains_key(n) && n < UPAGES implies n
            < round_up(p.size as int) / (PGSIZE as int) by {
            assert(p.mem(k2).pages.dom().contains(n));
            assert(p.mem(k1).pages.contains_key(n));
        }
    }
    assert(p.mem(k2).reserved_ok()) by {
        assert forall|n: int| UPAGES <= n && #[trigger] p.mem(k2).pages.contains_key(n) implies crate::vm::leaf(
            p.mem(k2).pages[n].flags,
        ) by {
            assert(p.mem(k2).pages.dom().contains(n));
            assert(p.mem(k1).pages.contains_key(n));
        }
    }
}

/// The frames after the memory was copied.
proof fn lemma_split(
    p: ProcData,
    c: ProcData,
    k0: KmemState,
    k1: KmemState,
    d: ProcData,
    k2: KmemState,
)
    requires
        copying(p, c, k0, k1, d, k2),
        p.mem(k1).share(c.mem(k1), 0, round_up(p.size as int) / (PGSIZE as int))->0.result is Ok,
        exists|n: int| #[trigger] p.pagetable->0.shares(d.pagetable->0, k2, n),
    ensures
        split(p.pagetable->0, d.pagetable->0, k0, k2),
{
    reveal(split);
    reveal(Uvm::same_frames);
    let u = p.pagetable->0;
    let cu = c.pagetable->0;
    let v = d.pagetable->0;
    let end = round_up(p.size as int) / (PGSIZE as int);
    let f = p.mem(k1).share(c.mem(k1), 0, end)->0;
    u.lemma_owns(k0);
    u.lemma_owns(k1);
    u.lemma_owns(k2);
    law_fork_shares(p.mem(k1), c.mem(k1), 0, end);
    lemma_spared(p, c, k0, k1, d, k2);
    // every page of the parent is shared
    assert forall|m: int| #[trigger] u.maps(k2, m) implies u.maps(k1, m) && page_of(u.pte(k2, m))
        == page_of(u.pte(k1, m)) && v.maps(k2, m) && page_of(v.pte(k2, m)) == page_of(u.pte(k2, m))
        && !flag(u.pte(k2, m), PTE_W) && k2.frames[page_of(u.pte(k2, m))].refs
        == k1.frames[page_of(u.pte(k1, m))].refs + 1 by {
        assert(u.maps(k1, m));
        lemma_mem(u, k1, m);
        lemma_mem(u, k2, m);
        lemma_mem(v, k2, m);
        assert(p.mem(k1).pages.contains_key(m));
        assert(0 <= m < end);
        assert(f.child.pages.contains_key(m));
        assert(v.maps(k2, m));
        lemma_flags(u.pte(k2, m));
    }
    assert forall|q: u64| #[trigger] u.owns(k0, q) && !u.0.is_node(q) implies k2.frames.contains_key(q)
        && k2.frames[q].content == k0.frames[q].content && k2.frames[q].refs == k0.frames[q].refs
        + 1 && v.owns(k2, q) by {
        assert(u.owns(k1, q));
        let m = choose|m: int| #[trigger] u.maps(k1, m) && page_of(u.pte(k1, m)) == q;
        assert(u.maps(k2, m));
        assert(k0.frames.contains_key(q));
        assert(!cu.0.is_node(q)) by {
            if cu.0.is_node(q) {
                assert(cu.owns(k1, q));
            }
        }
    }
    assert forall|q: u64| !#[trigger] u.writes(k2, q) by {
        if u.writes(k2, q) {
            let m = choose|m: int| #[trigger]
                u.maps(k2, m) && page_of(u.pte(k2, m)) == q && flag(u.pte(k2, m), PTE_W);
            assert(u.maps(k2, m));
        }
    }
    assert forall|q: u64| #[trigger] v.owns(k2, q) implies (v.0.is_node(q) && k0.free.contains(q)) || (
    u.owns(k0, q) && !u.0.is_node(q)) by {
        if v.0.is_node(q) {
            if cu.0.is_node(q) {
                assert(cu.owns(k1, q));
            }
        } else {
            let m = choose|m: int| #[trigger] v.maps(k2, m) && page_of(v.pte(k2, m)) == q;
            assert(u.maps(k2, m));
            assert(u.owns(k2, q));
            assert(u.owns(k1, q));
        }
    }
}

/// From `k0` a child `c` was made, in `k1`, and the memory of the parent `p` was copied, or could
/// not be: the child is `d` in `k2`.
spec fn copying(
    p: ProcData,
    c: ProcData,
    k0: KmemState,
    k1: KmemState,
    d: ProcData,
    k2: KmemState,
) -> bool {
    let u = p.pagetable->0;
    let cu = c.pagetable->0;
    let v = d.pagetable->0;
    let shared = p.mem(k1).share(c.mem(k1), 0, round_up(p.size as int) / (PGSIZE as int));
    &&& kmem_ok(k0) && kmem_ok(k1) && kmem_ok(k2)
    &&& p.settled(k0) && p.settled(k1)
    &&& u.wf(k2) && cu.wf(k1) && v.wf(k2)
    &&& k1.keeps(k0)
    &&& forall|q: u64| #[trigger] u.owns(k1, q) == u.owns(k0, q)
    &&& forall|q: u64| #[trigger] cu.owns(k1, q) ==> k0.free.contains(q)
    &&& u.kept(cu, k1, k2)
    &&& u.same_frames(k1, k2)
    &&& forall|q: u64| #[trigger] v.0.is_node(q) ==> cu.0.is_node(q) || k1.free.contains(q)
    &&& forall|q: u64| #[trigger] u.owns(k2, q) == u.owns(k1, q)
    &&& shared is Some
    &&& shared->0.parent == p.mem(k2)
    &&& shared->0.child == d.mem(k2)
    &&& c.mem(k1).below(0)
}

proof fn lemma_spared(
    p: ProcData,
    c: ProcData,
    k0: KmemState,
    k1: KmemState,
    d: ProcData,
    k2: KmemState,
)
    requires
        copying(p, c, k0, k1, d, k2),
    ensures
        spared(p.pagetable->0, k0, k2),
{
    let u = p.pagetable->0;
    let cu = c.pagetable->0;
    assert forall|q: u64| #[trigger] k0.frames.contains_key(q) && !u.owns(
        k0,
        q,
    ) implies k2.frames.contains_key(q) && k2.frames[q] == k0.frames[q] by {
        assert(k1.frames.contains_key(q));
        assert(!u.owns(k1, q));
        assert(!u.0.is_node(q));
        assert(!cu.0.is_node(q)) by {
            if cu.0.is_node(q) {
                assert(cu.owns(k1, q));
            }
        }
    }
}

/// The frames of the parent after the memory could not be copied.
proof fn lemma_recovering(
    p: ProcData,
    c: ProcData,
    k0: KmemState,
    k1: KmemState,
    d: ProcData,
    k2: KmemState,
)
    requires
        copying(p, c, k0, k1, d, k2),
        p.mem(k1).share(c.mem(k1), 0, round_up(p.size as int) / (PGSIZE as int))->0.result is Err,
    ensures
        recovered(p.pagetable->0, k0, k2),
{
    reveal(recovered);
    reveal(Uvm::same_frames);
    let u = p.pagetable->0;
    let cu = c.pagetable->0;
    let end = round_up(p.size as int) / (PGSIZE as int);
    u.lemma_owns(k0);
    u.lemma_owns(k1);
    u.lemma_owns(k2);
    u.lemma_untouched(k0, k1);
    lemma_spared(p, c, k0, k1, d, k2);
    assert forall|i: int| 0 <= i < UPAGES && #[trigger] p.mem(k1).pages.contains_key(i) implies p.mem(
        k1,
    ).pages[i].refs >= 1 by {
        lemma_mem(u, k1, i);
        assert(u.maps(k1, i));
        assert(u.owns(k1, page_of(u.pte(k1, i))));
    }
    law_fork_undone(p.mem(k1), c.mem(k1), end);
    assert forall|m: int| #[trigger] u.maps(k2, m) implies u.maps(k1, m) && page_of(u.pte(k2, m))
        == page_of(u.pte(k1, m)) && (flag(u.pte(k2, m), PTE_W) ==> flag(u.pte(k1, m), PTE_W))
        && k2.frames[page_of(u.pte(k2, m))].refs == k1.frames[page_of(u.pte(k1, m))].refs by {
        assert(u.maps(k1, m));
        lemma_mem(u, k1, m);
        lemma_mem(u, k2, m);
        assert(p.mem(k1).pages.contains_key(m));
        lemma_flags(u.pte(k2, m));
        lemma_flags(u.pte(k1, m));
    }
    assert forall|q: u64| #[trigger] u.owns(k0, q) && !u.0.is_node(q) implies k2.frames.contains_key(q)
        && k2.frames[q] == k0.frames[q] by {
        assert(u.owns(k1, q));
        let m = choose|m: int| #[trigger] u.maps(k1, m) && page_of(u.pte(k1, m)) == q;
        assert(u.maps(k2, m));
        assert(k0.frames.contains_key(q));
        assert(!cu.0.is_node(q)) by {
            if cu.0.is_node(q) {
                assert(cu.owns(k1, q));
            }
        }
    }
    assert forall|q: u64| #[trigger] u.writes(k2, q) implies u.writes(k0, q) by {
        let m = choose|m: int| #[trigger]
            u.maps(k2, m) && page_of(u.pte(k2, m)) == q && flag(u.pte(k2, m), PTE_W);
        assert(u.maps(k2, m));
        assert(u.maps(k1, m));
        assert(u.maps(k0, m));
        assert(u.pte(k1, m) == u.pte(k0, m));
    }
}

/// Giving the child back changes none of that.
proof fn lemma_recovered(p: ProcData, d: ProcData, k0: KmemState, k2: KmemState, k3: KmemState)
    requires
        kmem_ok(k0),
        kmem_ok(k2),
        kmem_ok(k3),
        p.settled(k0),
        p.settled(k2),
        d.settled(k2),
        d.mem(k2).below(0),
        d.gone(k2, k3),
        recovered(p.pagetable->0, k0, k2),
        forall|q: u64| #[trigger] (d.pagetable->0).0.is_node(q) ==> k0.free.contains(q),
        k0.free.contains(d.trapframe->0.pa),
    ensures
        recovered(p.pagetable->0, k0, k3),
{
    reveal(recovered);
    let u = p.pagetable->0;
    let v = d.pagetable->0;
    let pa = d.trapframe->0.pa;
    let km = k2.released(pa);
    u.lemma_owns(k0);
    u.lemma_owns(k2);
    v.lemma_owns(k2);
    v.lemma_untouched(k2, km);
    assert forall|q: u64| !(#[trigger] v.owns(km, q) && !v.0.is_node(q)) by {
        if v.owns(km, q) && !v.0.is_node(q) {
            let m = choose|m: int| #[trigger] v.maps(km, m) && page_of(v.pte(km, m)) == q;
            assert(v.maps(k2, m));
            lemma_mem(v, k2, m);
            assert(d.mem(k2).pages.contains_key(m));
        }
    }
    assert forall|q: u64| #[trigger] k0.frames.contains_key(q) implies k3.frames.contains_key(q)
        && k3.frames[q] == k2.frames[q] by {
        assert(k2.frames.contains_key(q)) by {
            if u.owns(k0, q) {
                if u.0.is_node(q) {
                    assert(u.owns(k2, q));
                }
            }
        }
        assert(km.frames.contains_key(q) && km.frames[q] == k2.frames[q]);
        assert(!v.owns(km, q));
        assert(v.frame_freed(km, k3, q));
    }
    assert forall|q: u64| #[trigger] u.owns(k2, q) implies k3.frames.contains_key(q) && k3.frames[q]
        == k2.frames[q] by {
        assert(u.owns(k0, q));
        assert(k0.frames.contains_key(q));
    }
    u.lemma_untouched(k2, k3);
    assert forall|q: u64| #[trigger] u.writes(k3, q) implies u.writes(k0, q) by {
        let m = choose|m: int| #[trigger]
            u.maps(k3, m) && page_of(u.pte(k3, m)) == q && flag(u.pte(k3, m), PTE_W);
        assert(u.maps(k2, m));
        assert(u.pte(k3, m) == u.pte(k2, m));
        assert(u.writes(k2, q));
    }
}

/// Freeing a child that shares no page leaves the parent as it is.
proof fn lemma_freed_child(p: ProcData, d: ProcData, k2: KmemState, k3: KmemState)
    requires
        p.settled(k2),
        d.settled(k2),
        kmem_ok(k2),
        kmem_ok(k3),
        d.mem(k2).below(0),
        d.gone(k2, k3),
        forall|q: u64| #[trigger] (p.pagetable->0).0.is_node(q) ==> !(d.pagetable->0).0.is_node(q),
        !p.pagetable->0.owns(k2, d.trapframe->0.pa),
        !d.pagetable->0.owns(k2, p.trapframe->0.pa),
        p.trapframe->0.pa != d.trapframe->0.pa,
    ensures
        p.settled(k3),
        p.mem(k3).pages == p.mem(k2).pages,
        p.pagetable->0.same_reserved(k2, p.pagetable->0, k3),
{
    let pu = p.pagetable->0;
    let du = d.pagetable->0;
    let km = k2.released(d.trapframe->0.pa);
    du.lemma_owns(k2);
    pu.lemma_owns(k2);
    du.lemma_untouched(k2, km);
    du.0.lemma_nodes_live(k2);
    assert forall|q: u64| #[trigger] pu.owns(k2, q) implies !du.owns(k2, q) by {
        if du.owns(k2, q) {
            if !du.0.is_node(q) {
                let m = choose|m: int| #[trigger] du.maps(k2, m) && crate::riscv::page_of(
                    du.pte(k2, m),
                ) == q;
                assert(d.mem(k2).pages.contains_key(m));
            }
            assert(k2.is_table(q));
            if !pu.0.is_node(q) {
                let m = choose|m: int| #[trigger] pu.maps(k2, m) && crate::riscv::page_of(
                    pu.pte(k2, m),
                ) == q;
                assert(pu.page_ok(k2, m));
            }
        }
    }
    assert forall|q: u64| #[trigger] pu.owns(k2, q) implies k3.frames.contains_key(q)
        && k3.frames[q] == k2.frames[q] by {
        assert(km.frames.contains_key(q));
        assert(!du.owns(km, q));
        assert(du.frame_freed(km, k3, q));
    }
    pu.lemma_untouched(k2, k3);
    let pa = p.trapframe->0.pa;
    assert(km.frames.contains_key(pa));
    assert(!du.owns(km, pa));
    assert(du.frame_freed(km, k3, pa));
}

} // verus!
