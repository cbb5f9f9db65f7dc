//! What a process runs after it executed a program.
use vstd::prelude::*;
use crate::exec::laws::{
    contents,
    covered_by,
    fails,
    header,
    header_ok,
    is_image,
    last_for,
    law_program_is_loaded,
    law_read_exact,
    loads,
    own_page,
    readable,
    uncovered,
};
use crate::exec::run::{can_exec, executed, last_part, Program};
use crate::exec::stack_laws::{arg_at, args_there, law_stack, with_args};
use crate::exec::{ElfHeader, ExecError, ELF_MAGIC};
use crate::fs::inode::InodeData;
use crate::fs::table::FsState;
use crate::fs::Inode;
use crate::kalloc::KmemState;
use crate::param::USERSTACK;
use crate::proc::ProcData;
use crate::riscv::{round_up, PGSIZE};
use crate::vm::usermem::{UserMem, UPAGES};

verus! {

/// The file at `path` is `ino`, and has the bytes of `d`, when it is opened to be loaded.
pub open spec fn program_file(s: FsState, path: Seq<u8>, cwd: Inode, ino: Inode, d: InodeData) -> bool {
    &&& s.begin() matches Some(a)
    &&& a.resolve(path, cwd, false) matches Some((b, Ok((i, _))))
    &&& i == ino
    &&& b.lock(ino) matches Some((c, e))
    &&& e == d
    &&& readable(c.store, ino.dev, d)
}

/// The bytes of the file at `path`.
pub open spec fn program_bytes(s: FsState, path: Seq<u8>, cwd: Inode, ino: Inode, d: InodeData) -> Seq<u8> {
    let b = ((s.begin()->0).resolve(path, cwd, false)->0).0;
    contents((b.lock(ino)->0).0.store, ino.dev, d)
}

/// Loading the program at a path: its memory is the image that the file describes, and it starts
/// where the header of the file says. A file that is too short or does not start with the mark of a
/// program is refused.
pub proof fn law_load(s: FsState, path: Seq<u8>, cwd: Inode, free: nat, ino: Inode, d: InodeData)
    requires
        program_file(s, path, cwd, ino, d),
        s.load(path, cwd, free) is Some,
    ensures
        ({
            let f = program_bytes(s, path, cwd, ino, d);
            let elf = ElfHeader::of(f.take(ElfHeader::SIZE as int));
            let l = s.load(path, cwd, free)->0;
            &&& f.len() < ElfHeader::SIZE ==> l.result == Err::<Program, ExecError>(
                ExecError::Read,
            )
            &&& f.len() >= ElfHeader::SIZE && elf.magic != ELF_MAGIC ==> l.result == Err::<
                Program,
                ExecError,
            >(ExecError::Elf)
            &&& match l.result {
                Ok(p) => {
                    &&& f.len() >= ElfHeader::SIZE
                    &&& elf.magic == ELF_MAGIC
                    &&& p.entry == elf.entry
                    &&& p.size <= UPAGES * PGSIZE
                    &&& is_image(f, elf.phoff, elf.phnum as int, p.mem, p.size as int)
                },
                Err(ExecError::Read) => f.len() < ElfHeader::SIZE,
                Err(ExecError::Elf) => f.len() >= ElfHeader::SIZE && elf.magic != ELF_MAGIC,
                Err(e) => {
                    ||| e == ExecError::Alloc && free < 3
                    ||| exists|k: int| 0 <= k < elf.phnum && #[trigger] fails(f, elf.phoff, k, e)
                },
            }
        }),
{
    let f = program_bytes(s, path, cwd, ino, d);
    let elf = ElfHeader::of(f.take(ElfHeader::SIZE as int));
    let a = s.begin()->0;
    let b = (a.resolve(path, cwd, false)->0).0;
    let c = (b.lock(ino)->0).0;
    law_read_exact(c.store, c.sb, ino.dev, d, 0, ElfHeader::SIZE as u32);
    assert(f.take(ElfHeader::SIZE as int) == f.subrange(0, ElfHeader::SIZE as int));
    assert(c.with_store(c.store) == c);
    if f.len() >= ElfHeader::SIZE && elf.magic == ELF_MAGIC && free >= 3 {
        law_program_is_loaded(
            c.store,
            c.sb,
            ino.dev,
            d,
            (free - 3) as nat,
            elf.phoff,
            elf.phnum as int,
        );
    }
}

/// An image has whole pages, up to its size.
proof fn lemma_image_whole(f: Seq<u8>, phoff: u64, n: int, m: UserMem, size: int)
    requires
        is_image(f, phoff, n, m, size),
    ensures
        m.whole(),
        m.within(size),
        m.user(0) ==> m.shape.tabs.contains(0),
{
    assert forall|p: int| #[trigger] m.pages.contains_key(p) && p < UPAGES implies m.pages[p].data.len()
        == PGSIZE by {
        assert(own_page(m, p));
    }
    assert forall|p: int| #[trigger] m.pages.contains_key(p) && p < UPAGES implies p
        < round_up(size) / (PGSIZE as int) by {
        assert(p * PGSIZE < size);
    }
    if m.user(0) {
        assert(own_page(m, 0));
    }
}

/// The same pages have the same stack.
proof fn lemma_same_stack(
    m: UserMem,
    old_end: int,
    m1: UserMem,
    m2: UserMem,
    end: int,
    sp: int,
    argv: Seq<Seq<u8>>,
)
    requires
        with_args(m, old_end, m1, end, sp, argv),
        m2.pages == m1.pages,
    ensures
        with_args(m, old_end, m2, end, sp, argv),
{
    let m3 = UserMem { shape: m2.shape, left: m2.left, ..m1 };
    assert(m3 == m2);
    assert forall|a: int, bytes: Seq<u8>| #[trigger] m1.shows(a, bytes) implies m2.shows(a, bytes) by {
        assert forall|j: int| 0 <= j < bytes.len() implies #[trigger] m2.shows_one(a, bytes, j) by {
            assert(m1.shows_one(a, bytes, j));
        }
    }
    let at = choose|at: Seq<u64>| #[trigger] args_there(m1, sp, end, argv, at);
    assert(args_there(m2, sp, end, argv, at)) by {
        assert forall|q: int| 0 <= q < argv.len() implies #[trigger] arg_at(
            m2,
            at,
            argv,
            q,
            end,
        ) by {
            assert(arg_at(m1, at, argv, q, end));
        }
    }
    assert forall|a: int|
        0 <= a && !(sp <= a < end) && a / (PGSIZE as int) < UPAGES implies #[trigger] m.byte_kept(
        m2,
        a,
    ) by {
        assert(m.byte_kept(m1, a));
    }
    assert forall|a: int|
        end - USERSTACK * PGSIZE <= a < end implies #[trigger] m2.can_write(a) by {
        assert(m1.can_write(a));
    }
}

/// The address `a` is one of section `k`, and no section has a byte for it.
pub open spec fn zero_for(f: Seq<u8>, phoff: u64, n: int, k: int, a: int) -> bool {
    let ph = header(f, phoff, k);
    &&& 0 <= k < n
    &&& loads(f, phoff, k)
    &&& ph.vaddr <= a < ph.vaddr + ph.memsz
    &&& uncovered(f, phoff, n, a)
}

/// After a program was executed the memory of the process holds every byte of every section of its
/// file, at the address that the section's header gives it, zeros where no section has a byte, and
/// above them a stack with the arguments. The process goes on at the program's start with the stack
/// pointer and the number of the arguments.
pub proof fn law_exec(
    s0: FsState,
    d0: ProcData,
    k0: KmemState,
    path: Seq<u8>,
    argv: Seq<Seq<u8>>,
    trampoline: u64,
    s1: FsState,
    d1: ProcData,
    k1: KmemState,
    r: Result<u64, ExecError>,
    ino: Inode,
    d: InodeData,
)
    requires
        program_file(s0, path, d0.cwd, ino, d),
        can_exec(s0, d0, k0, path, argv, trampoline),
        executed(s0, d0, k0, path, argv, trampoline, s1, d1, k1, r),
        r is Ok,
    ensures
        ({
            let f = program_bytes(s0, path, d0.cwd, ino, d);
            let elf = ElfHeader::of(f.take(ElfHeader::SIZE as int));
            let n = elf.phnum as int;
            let m = d1.mem(k1);
            let frame = d1.trapframe->0.frame;
            &&& f.len() >= ElfHeader::SIZE && elf.magic == ELF_MAGIC
            &&& r == Ok::<u64, ExecError>(argv.len() as u64)
            &&& frame.epc == elf.entry
            &&& frame.a1 == frame.sp
            &&& frame.sp % 16 == 0
            &&& exists|at: Seq<u64>| #[trigger]
                args_there(m, frame.sp as int, d1.size as int, argv, at)
            &&& d1.name@ == last_part(path)
            // all bytes of the file that are to be loaded are there
            &&& forall|k: int, a: int| #[trigger]
                last_for(f, elf.phoff, n, k, a) ==> m.at(a) && m.byte(a) == f[header(
                    f,
                    elf.phoff,
                    k,
                ).place(a)]
            &&& exists|p: UserMem, size: int| #[trigger]
                is_image(f, elf.phoff, n, p, size) && with_args(
                    p,
                    size,
                    m,
                    d1.size as int,
                    frame.sp as int,
                    argv,
                )
            // and zeros where a section is longer than in the file
            &&& forall|k: int, a: int| #[trigger]
                zero_for(f, elf.phoff, n, k, a) ==> m.at(a) && m.byte(a) == 0
        }),
{
    reveal(can_exec);
    reveal(executed);
    let f = program_bytes(s0, path, d0.cwd, ino, d);
    let elf = ElfHeader::of(f.take(ElfHeader::SIZE as int));
    let n = elf.phnum as int;
    let m = d1.mem(k1);
    let l = s0.load(path, d0.cwd, k0.free.len())->0;
    law_load(s0, path, d0.cwd, k0.free.len(), ino, d);
    let p = l.result->Ok_0;
    lemma_image_whole(f, elf.phoff, n, p.mem, p.size as int);
    law_stack(p.mem, d0.size as int, p.size, argv);
    let (m1, end, x) = p.mem.with_stack(d0.size as int, p.size, argv)->0;
    let sp = x->Ok_0;
    lemma_same_stack(p.mem, p.size as int, m1, m, end as int, sp as int, argv);
    assert forall|k: int, a: int| #[trigger] last_for(f, elf.phoff, n, k, a) implies m.at(a)
        && m.byte(a) == f[header(f, elf.phoff, k).place(a)] by {
        assert(header_ok(f, elf.phoff, k, p.size as int));
        assert(p.mem.at(a));
        assert(p.mem.byte_kept(m, a));
    }
    assert forall|k: int, a: int| #[trigger] zero_for(f, elf.phoff, n, k, a) implies m.at(a) && m.byte(a) == 0 by {
        assert(header_ok(f, elf.phoff, k, p.size as int));
        assert(p.mem.at(a));
        assert(p.mem.byte_kept(m, a));
    }
}

/// No other section of the program has a byte for an address of section `k`.
pub open spec fn alone(f: Seq<u8>, phoff: u64, n: int, k: int) -> bool {
    forall|i: int, a: int|
        0 <= i < n && i != k && header(f, phoff, k).vaddr <= a < header(f, phoff, k).vaddr + header(
            f,
            phoff,
            k,
        ).memsz ==> !#[trigger] covered_by(f, phoff, i, a)
}

/// The same for one section that no other one overlaps: its byte `j` is the byte `offset + j` of the
/// file, and what it has beyond its bytes in the file is zero.
pub proof fn law_exec_section(
    s0: FsState,
    d0: ProcData,
    k0: KmemState,
    path: Seq<u8>,
    argv: Seq<Seq<u8>>,
    trampoline: u64,
    s1: FsState,
    d1: ProcData,
    k1: KmemState,
    r: Result<u64, ExecError>,
    ino: Inode,
    d: InodeData,
    k: int,
    j: int,
)
    requires
        program_file(s0, path, d0.cwd, ino, d),
        can_exec(s0, d0, k0, path, argv, trampoline),
        executed(s0, d0, k0, path, argv, trampoline, s1, d1, k1, r),
        r is Ok,
        ({
            let f = program_bytes(s0, path, d0.cwd, ino, d);
            let elf = ElfHeader::of(f.take(ElfHeader::SIZE as int));
            let ph = header(f, elf.phoff, k);
            &&& 0 <= k < elf.phnum
            &&& loads(f, elf.phoff, k)
            &&& alone(f, elf.phoff, elf.phnum as int, k)
            &&& ph.offset <= u32::MAX
            &&& 0 <= j < ph.memsz
        }),
    ensures
        ({
            let f = program_bytes(s0, path, d0.cwd, ino, d);
            let elf = ElfHeader::of(f.take(ElfHeader::SIZE as int));
            let ph = header(f, elf.phoff, k);
            let m = d1.mem(k1);
            &&& m.at(ph.vaddr + j)
            &&& m.byte(ph.vaddr + j) == (if j < ph.filesz {
                f[ph.offset + j]
            } else {
                0
            })
        }),
{
    let f = program_bytes(s0, path, d0.cwd, ino, d);
    let elf = ElfHeader::of(f.take(ElfHeader::SIZE as int));
    let n = elf.phnum as int;
    let ph = header(f, elf.phoff, k);
    let a = ph.vaddr + j;
    law_exec(s0, d0, k0, path, argv, trampoline, s1, d1, k1, r, ino, d);
    if j < ph.filesz {
        assert(covered_by(f, elf.phoff, k, a));
        assert(last_for(f, elf.phoff, n, k, a));
        assert(ph.place(a) == ph.offset + j);
    } else {
        assert(!covered_by(f, elf.phoff, k, a));
        assert(uncovered(f, elf.phoff, n, a)) by {
            assert forall|i: int| 0 <= i < n implies !#[trigger] covered_by(f, elf.phoff, i, a) by {}
        }
        assert(zero_for(f, elf.phoff, n, k, a));
    }
}

} // verus!
