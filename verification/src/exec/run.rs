//! Replacing the program of a process.
use vstd::prelude::*;
use crate::exec::load::{load_program, read_exact};
use crate::exec::stack::{build_stack, views};
use crate::exec::{ElfHeader, ExecError, ELF_MAGIC};
use crate::fs::inode::{Inode, InodeData, InodeInner};
use crate::fs::path::{Path, SLASH};
use crate::fs::table::{Fs, FsState};
use crate::kalloc::{page_ok, Kmem, KmemState};
use crate::proc::fork::lemma_still_settled;
use crate::proc::life::lemma_fresh_ok;
use crate::proc::{ProcData, TrapFrame};
use crate::riscv::PGSIZE;
use crate::sleeplock::SleepLockGuard;
use crate::vm::reserved::{lemma_made_on, lemma_made_undone};
use crate::vm::usermem::{UserMem, MAXPAGES, UPAGES};
use crate::vm::uvm::{kmem_ok, lemma_flags, Uvm};
use crate::vm::{flag, leaf};

verus! {

/// A program that was loaded.
#[verifier::ext_equal]
pub struct Program {
    pub mem: UserMem,
    /// How far it reaches
    pub size: u64,
    /// Where it starts
    pub entry: u64,
}

/// What came of loading a program.
#[verifier::ext_equal]
pub struct LoadedProgram {
    pub fs: FsState,
    pub result: Result<Program, ExecError>,
    /// Whether memory is left in use though there was an error
    pub left: bool,
}

impl FsState {
    /// The file of a program, locked, and its header.
    pub open spec fn open_program(self, path: Seq<u8>, cwd: Inode) -> Option<
        (FsState, Result<(Inode, InodeData, ElfHeader), ExecError>),
    > {
        match self.resolve(path, cwd, false) {
            None => None,
            Some((s, Err(_))) => Some((s, Err(ExecError::Read))),
            Some((s, Ok((ino, _)))) => match s.lock(ino) {
                None => None,
                Some((s, d)) => match s.store.read_exact(
                    s.sb,
                    ino.dev,
                    d,
                    0,
                    ElfHeader::SIZE as u32,
                ) {
                    None => None,
                    Some((st, d, None)) => s.with_store(st).close_program(ino, d, ExecError::Read),
                    Some((st, d, Some(bytes))) => if ElfHeader::of(bytes).magic != ELF_MAGIC {
                        s.with_store(st).close_program(ino, d, ExecError::Elf)
                    } else {
                        Some((s.with_store(st), Ok((ino, d, ElfHeader::of(bytes)))))
                    },
                },
            },
        }
    }

    /// Giving back the file of a program with an error.
    pub open spec fn close_program(self, ino: Inode, d: InodeData, e: ExecError) -> Option<
        (FsState, Result<(Inode, InodeData, ElfHeader), ExecError>),
    > {
        match self.unlock_put(ino, d) {
            None => None,
            Some(s) => Some((s, Err(e))),
        }
    }

    /// Loading the program at `path` when `free` frames are free, in one operation on the log.
    pub open spec fn load(self, path: Seq<u8>, cwd: Inode, free: nat) -> Option<LoadedProgram> {
        match self.begin() {
            None => None,
            Some(s) => match s.open_program(path, cwd) {
                None => None,
                Some((s, Err(e))) => s.load_end(Err(e), false),
                Some((s, Ok((ino, d, elf)))) => if free < 3 {
                    match s.unlock_put(ino, d) {
                        None => None,
                        Some(s) => s.load_end(Err(ExecError::Alloc), false),
                    }
                } else {
                    match s.store.load_program(
                        s.sb,
                        ino.dev,
                        d,
                        UserMem::fresh((free - 3) as nat),
                        0,
                        elf.phoff,
                        elf.phnum as int,
                    ) {
                        None => None,
                        Some(l) => match s.with_store(l.store).unlock_put(ino, l.d) {
                            None => None,
                            Some(s) => s.load_end(
                                match l.result {
                                    Ok(()) => Ok(
                                        Program { mem: l.mem, size: l.size, entry: elf.entry },
                                    ),
                                    Err(e) => Err(e),
                                },
                                l.left,
                            ),
                        },
                    }
                },
            },
        }
    }

    /// Ending the operation.
    pub open spec fn load_end(self, result: Result<Program, ExecError>, left: bool) -> Option<
        LoadedProgram,
    > {
        match self.end() {
            None => None,
            Some(fs) => Some(LoadedProgram { fs, result, left }),
        }
    }
}

/// What comes behind the last slash of a path.
pub open spec fn last_part(path: Seq<u8>) -> Seq<u8>
    decreases path.len(),
{
    if path.len() == 0 {
        seq![]
    } else if path.last() == SLASH {
        seq![]
    } else {
        last_part(path.drop_last()).push(path.last())
    }
}

/// What comes behind the last slash of a path.
fn base_name(path: &Path) -> (r: Vec<u8>)
    ensures
        r@ == last_part(path.0@),
{
    let bytes = path.as_bytes();
    let n = bytes.len();
    let mut name: Vec<u8> = Vec::new();
    let mut i: usize = 0;
    proof {
        assert(bytes@.take(0) =~= seq![]);
        assert(name@ =~= seq![]);
    }
    while i < n
        invariant
            i <= n,
            n == bytes@.len(),
            name@ == last_part(bytes@.take(i as int)),
        decreases n - i,
    {
        let c = bytes[i];
        proof {
            let t = bytes@.take(i + 1);
            assert(t.drop_last() =~= bytes@.take(i as int));
            assert(t.last() == c);
        }
        if c == SLASH {
            name.clear();
            assert(name@ =~= seq![]);
        } else {
            name.push(c);
        }
        i += 1;
    }
    assert(bytes@.take(i as int) =~= bytes@);
    name
}

/// Opens the file of a program and reads its header.
fn open_program(fs: &mut Fs, path: &Path, cwd: &Inode) -> (r: Result<
    (Inode, SleepLockGuard<InodeInner>, ElfHeader),
    ExecError,
>)
    requires
        old(fs).wf(),
        old(fs)@.open_program(path.0@, *cwd) is Some,
    ensures
        final(fs).wf(),
        final(fs)@.sb == old(fs)@.sb,
        ({
            let (s, found) = old(fs)@.open_program(path.0@, *cwd)->0;
            &&& final(fs)@ == s
            &&& match found {
                Ok((ino, d, elf)) => r is Ok && r->Ok_0.0 == ino && r->Ok_0.1.data@ == d
                    && r->Ok_0.2 == elf,
                Err(e) => r is Err && r->Err_0 == e,
            }
        }),
{
    // open the executable file
    let inode = match path.resolve(fs, cwd) {
        Ok(inode) => inode,
        Err(_) => {
            return Err(ExecError::Read);
        },
    };
    let mut inner = inode.lock(fs);
    let sb = fs.superblock();
    let ghost s1 = fs@;
    // read the elf header
    let read = read_exact(&inode, &mut fs.store, &sb, &mut inner, 0, ElfHeader::SIZE as u32);
    assert(fs@ =~= s1.with_store(fs.store@));
    let bytes = match read {
        Some(bytes) => bytes,
        None => {
            inode.unlock_put(fs, inner);
            return Err(ExecError::Read);
        },
    };
    let elf = ElfHeader::from_bytes(&bytes);
    // make sure it's a valid elf file
    if elf.magic != ELF_MAGIC {
        inode.unlock_put(fs, inner);
        return Err(ExecError::Elf);
    }
    Ok((inode, inner, elf))
}

/// Frees the memory of a program that is not to be used.
fn discard(uvm: Uvm, kmem: &mut Kmem, size: u64, Ghost(k0): Ghost<KmemState>)
    requires
        old(kmem).wf(),
        kmem_ok(k0),
        uvm.wf(old(kmem)@),
        uvm.made_from(old(kmem)@, k0),
        uvm.mem(old(kmem)@).within(size as int),
        uvm.mem(old(kmem)@).reserved_ok(),
        size + PGSIZE <= u64::MAX,
    ensures
        final(kmem).wf(),
        final(kmem)@.free == k0.free,
        forall|p: u64| #[trigger]
            k0.frames.contains_key(p) ==> final(kmem)@.frames.contains_key(p)
                && final(kmem)@.frames[p] == k0.frames[p],
{
    let ghost k1 = kmem@;
    proof {
        kmem.lemma_wf();
        lemma_leaves(uvm, k1);
    }
    uvm.proc_free(kmem, size);
    proof {
        kmem.lemma_wf();
        lemma_made_undone(uvm, k1, kmem@, k0);
    }
}

/// The entries of reserved pages are for pages.
proof fn lemma_leaves(u: Uvm, k: KmemState)
    requires
        u.mem(k).reserved_ok(),
    ensures
        forall|n: int|
            UPAGES <= n < MAXPAGES && flag(#[trigger] u.pte(k, n), crate::riscv::PTE_V) ==> leaf(
                u.pte(k, n),
            ),
{
    assert forall|n: int|
        UPAGES <= n < MAXPAGES && flag(#[trigger] u.pte(k, n), crate::riscv::PTE_V) implies leaf(
        u.pte(k, n),
    ) by {
        assert(u.mem(k).pages.contains_key(n));
        lemma_flags(u.pte(k, n));
    }
}

/// Loads the program at `path` into new memory.
fn load(fs: &mut Fs, kmem: &mut Kmem, path: &Path, cwd: &Inode, trampoline: u64, trapframe: u64) -> (r: Result<
    (Uvm, u64, u64),
    ExecError,
>)
    requires
        old(fs).wf(),
        old(kmem).wf(),
        page_ok(trampoline),
        page_ok(trapframe),
        old(fs)@.load(path.0@, *cwd, old(kmem)@.free.len()) is Some,
    ensures
        final(fs).wf(),
        final(kmem).wf(),
        forall|p: u64| #[trigger]
            old(kmem)@.frames.contains_key(p) ==> final(kmem)@.frames.contains_key(p)
                && final(kmem)@.frames[p] == old(kmem)@.frames[p],
        forall|p: u64| #[trigger] final(kmem)@.free.contains(p) ==> old(kmem)@.free.contains(p),
        ({
            let l = old(fs)@.load(path.0@, *cwd, old(kmem)@.free.len())->0;
            &&& final(fs)@ == l.fs
            &&& match l.result {
                Ok(p) => {
                    &&& r is Ok
                    &&& r->Ok_0.1 == p.size
                    &&& r->Ok_0.2 == p.entry
                    &&& r->Ok_0.0.wf(final(kmem)@)
                    &&& r->Ok_0.0.mem(final(kmem)@) == p.mem
                    &&& r->Ok_0.0.made_from(final(kmem)@, old(kmem)@)
                    &&& r->Ok_0.0.trampoline_at(final(kmem)@, trampoline)
                    &&& r->Ok_0.0.trapframe_at(final(kmem)@, trapframe)
                    &&& p.mem.within(p.size as int)
                    &&& p.mem.reserved_ok()
                    &&& p.size + PGSIZE <= u64::MAX
                },
                Err(e) => {
                    &&& r is Err && r->Err_0 == e
                    &&& !l.left ==> final(kmem)@.free == old(kmem)@.free
                },
            }
        }),
{
    let ghost k0 = kmem@;
    proof {
        kmem.lemma_wf();
    }
    fs.begin_op();
    let (inode, mut inner, elf) = match open_program(fs, path, cwd) {
        Ok(found) => found,
        Err(e) => {
            fs.end_op();
            return Err(e);
        },
    };
    // create a new pagetable
    let mut uvm = match Uvm::for_process(kmem, trampoline, trapframe) {
        Ok(uvm) => uvm,
        Err(_) => {
            inode.unlock_put(fs, inner);
            fs.end_op();
            return Err(ExecError::Alloc);
        },
    };
    let ghost k1 = kmem@;
    let ghost u1 = uvm;
    proof {
        kmem.lemma_wf();
        lemma_fresh_ok((k0.free.len() - 3) as nat);
    }
    // load program into memory
    let sb = fs.superblock();
    let ghost s1 = fs@;
    let (size, loaded, left) = load_program(
        &mut uvm,
        kmem,
        &mut fs.store,
        &sb,
        &inode,
        &mut inner,
        elf.phoff,
        elf.phnum,
    );
    proof {
        kmem.lemma_wf();
        assert(fs@ =~= s1.with_store(fs.store@));
        lemma_made_on(u1, k1, uvm, kmem@, k0);
    }
    inode.unlock_put(fs, inner);
    fs.end_op();
    match loaded {
        Ok(()) => Ok((uvm, size, elf.entry)),
        Err(e) => {
            if !left {
                discard(uvm, kmem, size, Ghost(k0));
            }
            Err(e)
        },
    }
}

/// What the process with `old_data` is when it runs the new program: `mem` is its memory up to
/// `size`, which starts at `entry` with the stack pointer `sp`.
pub open spec fn runs(
    old_data: ProcData,
    new: ProcData,
    k: KmemState,
    mem: UserMem,
    size: u64,
    entry: u64,
    sp: u64,
    path: Seq<u8>,
) -> bool {
    &&& new.settled(k)
    &&& new.mem(k).pages == mem.pages
    &&& new.size == size
    &&& new.name@ == last_part(path)
    &&& new.trapframe->0.pa == old_data.trapframe->0.pa
    &&& new.trapframe->0.frame == (TrapFrame { a1: sp, epc: entry, sp, ..old_data.trapframe->0.frame })
    &&& new == (ProcData {
        pagetable: new.pagetable,
        size,
        name: new.name,
        trapframe: new.trapframe,
        ..old_data
    })
}

/// The program of a process can be replaced, or it can be said why not.
#[verifier::opaque]
pub open spec fn can_exec(
    s0: FsState,
    d0: ProcData,
    k0: KmemState,
    path: Seq<u8>,
    argv: Seq<Seq<u8>>,
    trampoline: u64,
) -> bool {
    &&& d0.settled(k0)
    &&& page_ok(trampoline)
            &&& s0.load(path, d0.cwd, k0.free.len()) matches Some(l)
            &&& (l.result matches Ok(p) ==> p.mem.with_stack(
                d0.size as int,
                p.size,
                argv,
            ) is Some)
}

/// What replacing the program of a process does.
#[verifier::opaque]
pub open spec fn executed(
    s0: FsState,
    d0: ProcData,
    k0: KmemState,
    path: Seq<u8>,
    argv: Seq<Seq<u8>>,
    trampoline: u64,
    s1: FsState,
    d1: ProcData,
    k1: KmemState,
    r: Result<u64, ExecError>,
) -> bool {
            let l = s0.load(path, d0.cwd, k0.free.len())->0;
            &&& s1 == l.fs
            &&& match l.result {
                Err(e) => {
                    &&& r == Err::<u64, ExecError>(e)
                    &&& k1.keeps(k0)
                    &&& d1 == d0
                    &&& d1.settled(k1)
                    &&& d1.mem(k1).pages == d0.mem(k0).pages
                    &&& d0.pagetable->0.same_reserved(k0, d1.pagetable->0, k1)
                    &&& !l.left ==> k1.free == k0.free
                },
                Ok(p) => match p.mem.with_stack(d0.size as int, p.size, argv)->0 {
                    (m, end, Err(e)) => {
                        &&& r == Err::<u64, ExecError>(e)
                        &&& k1.keeps(k0)
                        &&& d1 == d0
                        &&& d1.settled(k1)
                        &&& d1.mem(k1).pages == d0.mem(k0).pages
                        &&& d0.pagetable->0.same_reserved(k0, d1.pagetable->0, k1)
                        &&& k1.free == k0.free
                    },
                    (m, end, Ok(sp)) => {
                        &&& r == Ok::<u64, ExecError>(argv.len() as u64)
                        &&& runs(
                            d0,
                            d1,
                            k1,
                            m,
                            end,
                            p.entry,
                            sp,
                            path,
                        )
                        &&& d1.pagetable->0.trampoline_at(k1, trampoline)
                        &&& forall|q: u64| #[trigger]
                            d0.pagetable->0.owns(k0, q) && k0.frames[q].refs == 1 ==> k1.free.contains(q)
                        // the new memory was made, and then all of the old one was given back
                        &&& exists|k: KmemState| #[trigger]
                            d1.pagetable->0.made_from(k, k0) && kmem_ok(k) && d1.pagetable->0.wf(k)
                                && d0.pagetable->0.all_freed(k, k1)
                    },
                },
            }
}

/// Replaces the program of the process with the one at `path`, which gets the arguments `argv`.
/// Returns how many there are. If there is an error the process goes on as it was.
#[verifier::rlimit(40)]
pub fn exec(
    data: &mut ProcData,
    kmem: &mut Kmem,
    fs: &mut Fs,
    path: &Path,
    argv: &Vec<Vec<u8>>,
    trampoline: u64,
) -> (r: Result<u64, ExecError>)
    requires
        old(kmem).wf(),
        old(fs).wf(),
        can_exec(old(fs)@, *old(data), old(kmem)@, path.0@, views(argv@), trampoline),
    ensures
        final(kmem).wf(),
        final(fs).wf(),
        executed(
            old(fs)@,
            *old(data),
            old(kmem)@,
            path.0@,
            views(argv@),
            trampoline,
            final(fs)@,
            *final(data),
            final(kmem)@,
            r,
        ),
{
    let ghost k0 = kmem@;
    let ghost d0 = *data;
    proof {
        reveal(can_exec);
        reveal(executed);
        kmem.lemma_wf();
        d0.pagetable->0.lemma_owns(k0);
    }
    let trapframe = data.trapframe.as_ref().unwrap().pa;
    let cwd = data.cwd;
    let (mut uvm, size, entry) = match load(fs, kmem, path, &cwd, trampoline, trapframe) {
        Ok(loaded) => loaded,
        Err(e) => {
            proof {
                lemma_still_settled(d0, k0, kmem@);
            }
            return Err(e);
        },
    };
    let ghost k1 = kmem@;
    let ghost u1 = uvm;
    proof {
        kmem.lemma_wf();
    }
    let old_size = data.size;
    let (end, built) = build_stack(&mut uvm, kmem, old_size, size, argv);
    let ghost k2 = kmem@;
    let ghost u2 = uvm;
    proof {
        kmem.lemma_wf();
        lemma_made_on(u1, k1, uvm, k2, k0);
    }
    let sp = match built {
        Ok(sp) => sp,
        Err(e) => {
            discard(uvm, kmem, end, Ghost(k0));
            proof {
                lemma_still_settled(d0, k0, kmem@);
            }
            return Err(e);
        },
    };
    // save program name for debugging
    data.name = base_name(path);
    // commit to the user image
    let old_uvm = data.pagetable.take().unwrap();
    data.pagetable = Some(uvm);
    data.size = end;
    // a0 and a1 contain arguments to user main(argc, argv)
    // argc is returned via the system call return value
    let frame = data.trapframe_mut();
    frame.a1 = sp;
    frame.epc = entry;  // initial program counter
    frame.sp = sp;  // initial stack pointer
    proof {
        lemma_still_settled(d0, k0, k2);
        lemma_leaves(old_uvm, k2);
    }
    old_uvm.proc_free(kmem, old_size);
    proof {
        kmem.lemma_wf();
        lemma_committed(d0, k0, u2, k2, kmem@);
        assert(u2.made_from(k2, k0) && d0.pagetable->0.all_freed(k2, kmem@));
    }
    Ok(argv.len() as u64)
}

/// The new program is in order when the memory of the old one was given back.
proof fn lemma_committed(d0: ProcData, k0: KmemState, u: Uvm, k2: KmemState, k3: KmemState)
    requires
        kmem_ok(k0),
        kmem_ok(k2),
        kmem_ok(k3),
        d0.settled(k0),
        d0.settled(k2),
        forall|q: u64| #[trigger] d0.pagetable->0.owns(k2, q) == d0.pagetable->0.owns(k0, q),
        u.wf(k2),
        u.made_from(k2, k0),
        d0.pagetable->0.all_freed(k2, k3),
    ensures
        u.wf(k3),
        u.mem(k3).pages == u.mem(k2).pages,
        u.same_reserved(k2, u, k3),
        k3.frames.contains_key(d0.trapframe->0.pa),
        k3.frames[d0.trapframe->0.pa].refs == 1,
        !u.owns(k3, d0.trapframe->0.pa),
        forall|q: u64| #[trigger]
            d0.pagetable->0.owns(k0, q) && k0.frames[q].refs == 1 ==> k3.free.contains(q),
{
    let v = d0.pagetable->0;
    let pa = d0.trapframe->0.pa;
    v.lemma_owns(k0);
    assert forall|q: u64| #[trigger] u.owns(k2, q) implies k3.frames.contains_key(q)
        && k3.frames[q] == k2.frames[q] by {
        assert(k0.free.contains(q));
        assert(!v.owns(k2, q));
        assert(v.frame_freed(k2, k3, q));
    }
    u.lemma_untouched(k2, k3);
    assert(v.frame_freed(k2, k3, pa));
    assert(!u.owns(k2, pa));
    assert forall|q: u64| #[trigger] v.owns(k0, q) && k0.frames[q].refs == 1 implies k3.free.contains(q) by {
        assert(v.owns(k2, q));
        assert(k2.frames.contains_key(q) && k2.frames[q] == k0.frames[q]);
        assert(v.frame_freed(k2, k3, q));
    }
}

} // verus!
