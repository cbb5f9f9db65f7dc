//! The system calls that open and close pipes.
use vstd::prelude::*;
use crate::abi::SysError;
use crate::file::{File, Files, FilesState};
use crate::kalloc::{zero_page, Content, Kmem, KmemState};
use crate::le::{push_u64, u64_bytes};
use crate::pipe::Pipe;
use crate::proc::fork::spared;
use crate::proc::{copy_to_user, Channel, ProcData};
use crate::syscall::{file_of, SyscallArgs};
use crate::sysfile::calls::callable;
use crate::sysfile::{fd_alloc, fd_given, law_lowest_descriptor};
use crate::vm::uvm::kmem_ok;
use crate::vm::{UserMem, VA};

verus! {

/// The pages of pipes are in use, each for its pipe alone, and none of the process.
pub open spec fn pipes_apart(files: FilesState, data: ProcData, k: KmemState) -> bool {
    &&& files.pages_ok(k)
    &&& forall|p: u64| #[trigger]
        files.pipes.contains_key(p) ==> !data.pagetable->0.owns(k, p) && (data.trapframe matches Some(
            t,
        ) ==> t.pa != p)
}

/// A process keeps its memory when frames are taken or given back that are not its own.
proof fn lemma_elsewhere(d: ProcData, k0: KmemState, k1: KmemState)
    requires
        d.ready(k0),
        kmem_ok(k0),
        forall|q: u64| #[trigger]
            d.pagetable->0.owns(k0, q) ==> k1.frames.contains_key(q) && k1.frames[q]
                == k0.frames[q],
    ensures
        d.ready(k1),
        d.mem(k1).pages == d.mem(k0).pages,
        d.mem(k1).shape == d.mem(k0).shape,
        d.pagetable->0.same_reserved(k0, d.pagetable->0, k1),
        forall|q: u64| #[trigger] d.pagetable->0.owns(k1, q) == d.pagetable->0.owns(k0, q),
{
    d.pagetable->0.lemma_untouched(k0, k1);
}

/// It stays in order, too.
proof fn lemma_settled_elsewhere(d: ProcData, k0: KmemState, k1: KmemState)
    requires
        d.settled(k0),
        kmem_ok(k0),
        forall|q: u64| #[trigger]
            d.pagetable->0.owns(k0, q) ==> k1.frames.contains_key(q) && k1.frames[q]
                == k0.frames[q],
        k1.frames.contains_key(d.trapframe->0.pa),
        k1.frames[d.trapframe->0.pa] == k0.frames[d.trapframe->0.pa],
    ensures
        d.settled(k1),
{
    lemma_elsewhere(d, k0, k1);
    assert(d.pagetable->0.owns(k1, d.trapframe->0.pa) == d.pagetable->0.owns(
        k0,
        d.trapframe->0.pa,
    ));
}

/// The descriptor can be closed.
pub open spec fn can_close(f0: FilesState, d0: ProcData, k0: KmemState, args: SyscallArgs) -> bool {
    &&& pipes_apart(f0, d0, k0)
    &&& (file_of(d0.open_files@, args.arg(0) as i64) matches Ok((fd, file)) ==> f0.close(
        file.id as int,
    ) is Some)
}

/// What closing a descriptor does.
pub open spec fn closed_fd(
    f0: FilesState,
    d0: ProcData,
    k0: KmemState,
    args: SyscallArgs,
    f1: FilesState,
    d1: ProcData,
    k1: KmemState,
    r: (Result<u64, SysError>, Option<Channel>),
) -> bool {
        match file_of(d0.open_files@, args.arg(0) as i64) {
            Err(e) => {
                &&& r == (Err::<u64, SysError>(e), None::<Channel>)
                &&& f1 == f0
                &&& d1 == d0
                &&& k1 == k0
            },
            Ok((fd, file)) => {
                let (s, c) = f0.close(file.id as int)->0;
                &&& r == (Ok::<u64, SysError>(0), c.wake)
                &&& f1 == s
                &&& d1.open_files@ == d0.open_files@.update(fd as int, None)
                &&& d1 == (ProcData { open_files: d1.open_files, ..d0 })
                &&& k1 == match c.freed {
                    Some(p) => k0.released(p),
                    None => k0,
                }
                &&& d1.mem(k1).pages == d0.mem(k0).pages
                &&& d0.pagetable->0.same_reserved(k0, d1.pagetable->0, k1)
                &&& d0.settled(k0) ==> d1.settled(k1)
            },
        }
}

/// Closes a descriptor. Returns also who is to be woken up.
pub fn sys_close(args: &SyscallArgs, data: &mut ProcData, kmem: &mut Kmem, files: &mut Files) -> (r: (
    Result<u64, SysError>,
    Option<Channel>,
))
    requires
        callable(*old(files), *old(data), *old(kmem)),
        can_close(old(files)@, *old(data), old(kmem)@, *args),
    ensures
        callable(*final(files), *final(data), *final(kmem)),
        closed_fd(
            old(files)@,
            *old(data),
            old(kmem)@,
            *args,
            final(files)@,
            *final(data),
            final(kmem)@,
            r,
        ),
{
    let ghost k0 = kmem@;
    let ghost d0 = *data;
    proof {
        kmem.lemma_wf();
        d0.pagetable->0.lemma_owns(k0);
    }
    let (fd, file) = match args.get_file(0, data) {
        Ok(found) => found,
        Err(e) => {
            assert(files@ =~= old(files)@);
            return (Err(e), None);
        },
    };
    data.open_files[fd] = None;
    let closed = file.close(files);
    if let Some(page) = closed.freed {
        kmem.release(page);
    }
    proof {
        lemma_elsewhere(d0, k0, kmem@);
        assert(data.mem(kmem@) == d0.mem(kmem@));
        if d0.settled(k0) {
            lemma_settled_elsewhere(d0, k0, kmem@);
        }
    }
    (Ok(0), closed.wake)
}

/// What `pipe` does when the pipe is in page `p`: the files, the memory of the process while the
/// page is in use, its descriptors, and the result. `None` where something that is needed is not
/// there.
pub open spec fn piped(
    s: FilesState,
    m: UserMem,
    open: Seq<Option<File>>,
    a: File,
    b: File,
    size: int,
    addr: u64,
) -> Option<(FilesState, UserMem, Seq<Option<File>>, Result<u64, SysError>)> {
    match fd_given(open, a) {
        (_, Err(_)) => both_closed(s, m, open, a, b, SysError::TooManyFiles),
        (open1, Ok(fd0)) => match fd_given(open1, b) {
            (_, Err(_)) => both_closed(s, m, open, a, b, SysError::TooManyFiles),
            (open2, Ok(fd1)) => match m.copy_to(size, addr as int, u64_bytes(fd0)) {
                None => None,
                Some((m, Err(_))) => both_closed(s, m, open, a, b, SysError::BadAddress),
                Some((m, Ok(()))) => if addr + 8 > u64::MAX {
                    None
                } else {
                    match m.copy_to(size, addr + 8, u64_bytes(fd1)) {
                        None => None,
                        Some((m, Err(_))) => both_closed(s, m, open, a, b, SysError::BadAddress),
                        Some((m, Ok(()))) => Some((s, m, open2, Ok(0))),
                    }
                },
            },
        },
    }
}

/// Closing both ends of a pipe again.
pub open spec fn both_closed(
    s: FilesState,
    m: UserMem,
    open: Seq<Option<File>>,
    a: File,
    b: File,
    e: SysError,
) -> Option<(FilesState, UserMem, Seq<Option<File>>, Result<u64, SysError>)> {
    match s.close(a.id as int) {
        None => None,
        Some((s, _)) => match s.close(b.id as int) {
            None => None,
            Some((s, c)) => Some((s, m, open, Err(e))),
        },
    }
}

/// Closes both ends of the new pipe in page `page` again, and gives back the page.
fn close_both(files: &mut Files, kmem: &mut Kmem, a: File, b: File)
    requires
        old(files).wf(),
        old(kmem).wf(),
        old(files)@.close(a.id as int) matches Some((s, c)) && c.freed is None && (s.close(
            b.id as int,
        ) is Some),
        ({
            let (s, c) = (old(files)@.close(a.id as int)->0).0.close(b.id as int)->0;
            c.freed matches Some(p) ==> old(kmem)@.frames.contains_key(p)
        }),
    ensures
        final(files).wf(),
        final(kmem).wf(),
        ({
            let (s, c) = (old(files)@.close(a.id as int)->0).0.close(b.id as int)->0;
            &&& final(files)@ == s
            &&& final(kmem)@ == match c.freed {
                Some(p) => old(kmem)@.released(p),
                None => old(kmem)@,
            }
        }),
{
    let _ = a.close(files);
    let closed = b.close(files);
    if let Some(page) = closed.freed {
        kmem.release(page);
    }
}

/// The files after the two ends of a new pipe in page `p` were made.
pub open spec fn with_ends(s: FilesState, p: u64) -> (FilesState, File, File) {
    let (t0, f0) = s.table.allocated();
    let (t1, f1) = t0.allocated();
    ((FilesState { table: t1, ..s }).with_pipe(f0->Ok_0, f1->Ok_0, p), f0->Ok_0, f1->Ok_0)
}

/// There are two files left, and a page.
pub open spec fn can_pipe(s: FilesState, left: nat) -> bool {
    let (t0, f0) = s.table.allocated();
    let (t1, f1) = t0.allocated();
    f0 is Ok && f1 is Ok && left > 0
}

/// The memory of a process with another number of frames left.
pub open spec fn with_left(m: UserMem, left: nat) -> UserMem {
    UserMem { left, ..m }
}

/// The ends of a new pipe can be closed again, and then nothing is left of it.
proof fn lemma_ends(s: FilesState, p: u64, left: nat)
    requires
        s.table.full(),
        s.table.tidy(),
        can_pipe(s, left),
        !s.pipes.contains_key(p),
    ensures
        ({
            let (t, a, b) = with_ends(s, p);
            &&& a.id < crate::param::NFILE && b.id < crate::param::NFILE && a.id != b.id
            &&& t.close(a.id as int) matches Some((t1, c1))
            &&& c1.freed is None
            &&& t1.close(b.id as int) matches Some((t2, c2))
            &&& c2.freed == Some(p)
            &&& t2.pipes == s.pipes
        }),
{
    let (t0, f0) = s.table.allocated();
    let (t1, f1) = t0.allocated();
    crate::file::close::law_allocate_file(s.table);
    crate::file::close::law_allocate_file(t0);
    let a = f0->Ok_0;
    let b = f1->Ok_0;
    assert(t0.refs[a.id as int] == 1);
    assert(a.id != b.id);
    assert(s.table.refs[b.id as int] == 0);
    let (t, _, _) = with_ends(s, p);
    let u = (t.close(a.id as int)->0).0;
    assert(t.close(a.id as int) is Some);
    let v = (u.close(b.id as int)->0).0;
    assert(v.pipes =~= s.pipes);
}

/// A pipe can be asked for.
pub open spec fn can_open_pipe(f0: FilesState, d0: ProcData, k0: KmemState, args: SyscallArgs) -> bool {
    &&& pipes_apart(f0, d0, k0)
    &&& f0.table.tidy()
    &&& can_pipe(f0, k0.free.len()) ==> forall|p: u64| #[trigger]
            k0.free.contains(p) ==> {
                let (s, a, b) = with_ends(f0, p);
                piped(
                    s,
                    with_left(d0.mem(k0), (k0.free.len() - 1) as nat),
                    d0.open_files@,
                    a,
                    b,
                    d0.size as int,
                    args.arg(0),
                ) is Some
            }
}

/// What asking for a pipe does to frames: the page `p` is taken, the process changes its memory,
/// and the page is given back unless there is a pipe.
#[verifier::opaque]
pub open spec fn pipe_frames(
    d0: ProcData,
    k0: KmemState,
    p: u64,
    d1: ProcData,
    k1: KmemState,
    kept: bool,
) -> bool {
    let k = k0.allocated(p, Content::Page(zero_page()));
    exists|e: ProcData, m: KmemState|
        {
            &&& #[trigger] d0.touched(k, e, m)
            &&& kmem_ok(k)
            &&& kmem_ok(m)
            &&& e.pagetable == d1.pagetable
            &&& k1 == if kept {
                m
            } else {
                m.released(p)
            }
        }
}

/// What asking for a pipe does.
pub open spec fn opened_pipe(
    f0: FilesState,
    d0: ProcData,
    k0: KmemState,
    args: SyscallArgs,
    f1: FilesState,
    d1: ProcData,
    k1: KmemState,
    r: Result<u64, SysError>,
) -> bool {
        if !can_pipe(f0, k0.free.len()) {
            &&& r == Err::<u64, SysError>(SysError::FileTableFull)
            &&& f1 == f0
            &&& d1 == d0
            &&& k1 == k0
        } else {
            exists|p: u64| #[trigger]
                k0.free.contains(p) && {
                    let (s, a, b) = with_ends(f0, p);
                    let (s1, m1, open1, r1) = piped(
                        s,
                        with_left(d0.mem(k0), (k0.free.len() - 1) as nat),
                        d0.open_files@,
                        a,
                        b,
                        d0.size as int,
                        args.arg(0),
                    )->0;
                    &&& r == r1
                    &&& f1 == s1
                    &&& d1.open_files@ == open1
                    &&& d1.mem(k1).pages == m1.pages
                    &&& d1 == (ProcData {
                        open_files: d1.open_files,
                        pagetable: d1.pagetable,
                        ..d0
                    })
                    &&& r is Ok ==> k1.frames.contains_key(p) && k1.frames[p].refs == 1
                        && !d1.pagetable->0.owns(k1, p)
                    &&& r is Err ==> k1.free.contains(p)
                    &&& spared(d0.pagetable->0, k0, k1)
                    &&& d0.pagetable->0.same_reserved(k0, d1.pagetable->0, k1)
                    &&& d0.settled(k0) ==> d1.settled(k1)
                    &&& pipe_frames(d0, k0, p, d1, k1, r is Ok)
                }
        }
}

/// Makes a pipe, and gives the process a descriptor for each end.
#[verifier::rlimit(40)]
pub fn sys_pipe(args: &SyscallArgs, data: &mut ProcData, kmem: &mut Kmem, files: &mut Files) -> (r: Result<
    u64,
    SysError,
>)
    requires
        callable(*old(files), *old(data), *old(kmem)),
        can_open_pipe(old(files)@, *old(data), old(kmem)@, *args),
    ensures
        callable(*final(files), *final(data), *final(kmem)),
        opened_pipe(
            old(files)@,
            *old(data),
            old(kmem)@,
            *args,
            final(files)@,
            *final(data),
            final(kmem)@,
            r,
        ),
{
    let ghost k0 = kmem@;
    let ghost d0 = *data;
    let ghost s0 = files@;
    proof {
        kmem.lemma_wf();
        d0.pagetable->0.lemma_owns(k0);
    }
    // user pointer to array of two integers
    let addr = args.get_addr(0);
    let (read, write) = match Pipe::allocate(files, kmem) {
        Ok(pair) => pair,
        Err(e) => {
            return Err(SysError::from(e));
        },
    };
    let ghost k1 = kmem@;
    let ghost p = choose|p: u64| #[trigger]
        k0.free.contains(p) && k1 == k0.allocated(p, Content::Page(zero_page())) && files@
            == with_ends(s0, p).0;
    proof {
        kmem.lemma_wf();
        assert(k0.free.contains(p));
        lemma_elsewhere(d0, k0, k1);
        assert(d0.mem(k1) =~= with_left(d0.mem(k0), (k0.free.len() - 1) as nat));
        assert(!s0.pipes.contains_key(p));
        lemma_ends(s0, p, k0.free.len());
        d0.lemma_touched_refl(k1);
        if d0.settled(k0) {
            lemma_settled_elsewhere(d0, k0, k1);
        }
    }
    let fd0 = match fd_alloc(&mut data.open_files, read) {
        Ok(fd) => fd,
        Err(_) => {
            close_both(files, kmem, read, write);
            proof {
                lemma_elsewhere(d0, k1, kmem@);
                if d0.settled(k0) {
                    lemma_settled_elsewhere(d0, k1, kmem@);
                }
                lemma_pipe_frames(d0, k0, p, d0, k1, *data, kmem@, false);
                assert(k0.free.contains(p) && kmem@.free.contains(p));
                assert(spared(d0.pagetable->0, k0, kmem@));
            }
            return Err(SysError::TooManyFiles);
        },
    };
    proof {
        law_lowest_descriptor(d0.open_files@, read);
    }
    let ghost open1 = data.open_files@;
    let fd1 = match fd_alloc(&mut data.open_files, write) {
        Ok(fd) => fd,
        Err(_) => {
            data.open_files[fd0 as usize] = None;
            assert(data.open_files@ =~= d0.open_files@);
            close_both(files, kmem, read, write);
            proof {
                lemma_elsewhere(d0, k1, kmem@);
                if d0.settled(k0) {
                    lemma_settled_elsewhere(d0, k1, kmem@);
                }
                lemma_pipe_frames(d0, k0, p, d0, k1, *data, kmem@, false);
                assert(k0.free.contains(p) && kmem@.free.contains(p));
                assert(spared(d0.pagetable->0, k0, kmem@));
            }
            return Err(SysError::TooManyFiles);
        },
    };
    proof {
        law_lowest_descriptor(open1, write);
    }
    let ghost d1 = *data;
    let mut bytes: Vec<u8> = Vec::new();
    push_u64(&mut bytes, fd0);
    assert(bytes@ =~= u64_bytes(fd0));
    let mut copied = copy_to_user(data, kmem, &bytes, addr).is_ok();
    if copied {
        let ghost d2 = *data;
        let ghost k2 = kmem@;
        proof {
            kmem.lemma_wf();
        }
        let mut bytes: Vec<u8> = Vec::new();
        push_u64(&mut bytes, fd1);
        assert(bytes@ =~= u64_bytes(fd1));
        copied = copy_to_user(data, kmem, &bytes, VA(addr.0 + 8)).is_ok();
        proof {
            d1.lemma_touched_trans(k1, d2, k2, *data, kmem@);
        }
    }
    proof {
        kmem.lemma_wf();
        let u = d1.pagetable->0;
        assert(k1.frames.contains_key(p));
        assert(!u.owns(k1, p));
        assert(u.frame_apart(k1, data.pagetable->0, kmem@, p));
        assert(!data.pagetable->0.owns(kmem@, p)) by {
            if data.pagetable->0.owns(kmem@, p) {
                assert(k1.free.contains(p));
            }
        }
    }
    proof {
        assert forall|q: u64| #[trigger] k0.frames.contains_key(q) && !d0.pagetable->0.owns(
            k0,
            q,
        ) implies kmem@.frames.contains_key(q) && kmem@.frames[q] == k0.frames[q] && q != p by {
            assert(k1.frames.contains_key(q));
            assert(!d1.pagetable->0.owns(k1, q));
            assert(d1.pagetable->0.frame_apart(k1, data.pagetable->0, kmem@, q));
        }
    }
    let ghost e = ProcData { open_files: d0.open_files, ..*data };
    proof {
        assert(d0.touched(k1, e, kmem@));
        if d0.settled(k0) {
            d0.lemma_still(k1, e, kmem@);
        }
    }
    if !copied {
        let ghost k3 = kmem@;
        let ghost d3 = *data;
        data.open_files[fd0 as usize] = None;
        data.open_files[fd1 as usize] = None;
        assert(data.open_files@ =~= d0.open_files@);
        close_both(files, kmem, read, write);
        proof {
            d3.pagetable->0.lemma_owns(k3);
            lemma_elsewhere(d3, k3, kmem@);
            assert(data.mem(kmem@) == d3.mem(kmem@));
            if d0.settled(k0) {
                lemma_settled_elsewhere(e, k3, kmem@);
            }
            lemma_pipe_frames(d0, k0, p, e, k3, *data, kmem@, false);
            assert(k0.free.contains(p) && kmem@.free.contains(p));
            assert(spared(d0.pagetable->0, k0, kmem@));
        }
        return Err(SysError::BadAddress);
    }
    proof {
        lemma_pipe_frames(d0, k0, p, e, kmem@, *data, kmem@, true);
    }
    assert(k0.free.contains(p) && kmem@.frames.contains_key(p));
    Ok(0)
}

proof fn lemma_pipe_frames(
    d0: ProcData,
    k0: KmemState,
    p: u64,
    e: ProcData,
    m: KmemState,
    d1: ProcData,
    k1: KmemState,
    kept: bool,
)
    requires
        d0.touched(k0.allocated(p, Content::Page(zero_page())), e, m),
        kmem_ok(k0.allocated(p, Content::Page(zero_page()))),
        kmem_ok(m),
        e.pagetable == d1.pagetable,
        k1 == if kept {
            m
        } else {
            m.released(p)
        },
    ensures
        pipe_frames(d0, k0, p, d1, k1, kept),
{
    reveal(pipe_frames);
}

} // verus!
