//! What executing a program means: its memory holds what its file says, its stack the arguments.
use vstd::prelude::*;
use crate::exec::{ElfHeader, ExecError, ProgramHeader};
use crate::fs::inode::InodeData;
use crate::fs::laws::{bytes_of, law_read, mapped, quiet};
use crate::fs::{SuperBlock, MAXFILE, NADDRS};
use crate::kalloc::zero_page;
use crate::le::{
    lemma_u16_at,
    lemma_u32_at,
    u16_bytes,
    u32_bytes,
    u64_at,
    u64_bytes,
};
use crate::log::StoreState;
use crate::riscv::{round_up, PGSIZE, PTE_R, PTE_U, PTE_V, PTE_W, PTE_X};
use crate::virtio_disk::BSIZE;
use crate::vm::pagetable::tab_of;
use crate::vm::usermem::{UserMem, UserPage, UPAGES};
use crate::vm::flag;

verus! {

/// The file can be read, and has no holes.
pub open spec fn readable(s: StoreState, dev: u32, d: InodeData) -> bool {
    &&& s.sized()
    &&& quiet(s, dev, d)
    &&& d.addrs.len() == NADDRS
    &&& d.size <= MAXFILE * BSIZE
    &&& mapped(s, dev, d, 0, (d.size + BSIZE - 1) / (BSIZE as int))
}

/// All bytes of a file.
pub open spec fn contents(s: StoreState, dev: u32, d: InodeData) -> Seq<u8> {
    bytes_of(s, dev, d, 0, d.size as int)
}

/// Reading exactly so many bytes gives those of the file, or nothing where they are not all there.
/// Nothing changes.
pub proof fn law_read_exact(
    s: StoreState,
    sb: SuperBlock,
    dev: u32,
    d: InodeData,
    offset: u32,
    n: u32,
)
    requires
        readable(s, dev, d),
    ensures
        s.read_exact(sb, dev, d, offset, n) == Some(
            (
                s,
                d,
                if offset + n <= d.size {
                    Some(contents(s, dev, d).subrange(offset as int, offset + n))
                } else {
                    None
                },
            ),
        ),
{
    if offset <= d.size && offset + n <= u32::MAX {
        law_read(s, sb, dev, d, offset, n);
        if offset + n <= d.size {
            assert(bytes_of(s, dev, d, offset as int, offset + n) =~= contents(s, dev, d).subrange(
                offset as int,
                offset + n,
            ));
        }
    }
}

/// The header `k` of a program whose headers start at `phoff` of the file `f`. Places in a file are
/// numbers of 32 bits.
#[verifier::opaque]
pub open spec fn header(f: Seq<u8>, phoff: u64, k: int) -> ProgramHeader {
    let at = ((phoff + k * ProgramHeader::SIZE) as u64) as u32;
    ProgramHeader::of(f.subrange(at as int, at + ProgramHeader::SIZE))
}

/// The header `k` is all in the file.
#[verifier::opaque]
pub open spec fn header_there(f: Seq<u8>, phoff: u64, k: int) -> bool {
    ((phoff + k * ProgramHeader::SIZE) as u64) as u32 + ProgramHeader::SIZE <= f.len()
}

/// The header `k` is one of a section that is to be loaded.
pub open spec fn loads(f: Seq<u8>, phoff: u64, k: int) -> bool {
    header(f, phoff, k).typ == ProgramHeader::ELF_PROG_LOAD
}

impl ProgramHeader {
    /// The section has a byte in the file for the address `a`.
    pub open spec fn covers(self, a: int) -> bool {
        self.vaddr <= a < self.vaddr + self.filesz
    }

    /// Where in the file the byte for the address `a` is.
    pub open spec fn place(self, a: int) -> int {
        (self.offset as u32) + (a - self.vaddr)
    }

    /// All the bytes of the section are in the file `f`.
    pub open spec fn inside(self, f: Seq<u8>) -> bool {
        self.filesz > 0 ==> (self.offset as u32) + self.filesz <= f.len()
    }
}

/// The header `k` is that of a section, which has a byte for the address `a`.
pub open spec fn covered_by(f: Seq<u8>, phoff: u64, k: int, a: int) -> bool {
    loads(f, phoff, k) && header(f, phoff, k).covers(a)
}

/// Of the first `n` headers, the last one that has a byte for the address `a`, or -1.
spec fn source(f: Seq<u8>, phoff: u64, n: int, a: int) -> int
    decreases n,
{
    if n <= 0 {
        -1
    } else if covered_by(f, phoff, n - 1, a) {
        n - 1
    } else {
        source(f, phoff, n - 1, a)
    }
}

proof fn lemma_source(f: Seq<u8>, phoff: u64, n: int, a: int)
    ensures
        ({
            let k = source(f, phoff, n, a);
            &&& -1 <= k
            &&& k >= 0 ==> k < n && covered_by(f, phoff, k, a)
            &&& forall|i: int| k < i < n && 0 <= i ==> !#[trigger] covered_by(f, phoff, i, a)
        }),
    decreases n,
{
    if n > 0 && !covered_by(f, phoff, n - 1, a) {
        lemma_source(f, phoff, n - 1, a);
    }
}

/// Page `p` is there for the program alone.
pub open spec fn own_page(m: UserMem, p: int) -> bool {
    &&& m.pages.contains_key(p)
    &&& m.pages[p].data.len() == PGSIZE
    &&& m.pages[p].refs == 1
    &&& flag(m.pages[p].flags, PTE_U)
    &&& m.shape.tabs.contains(tab_of(p * PGSIZE))
}

/// The memory of a program, as far as the first `n` headers go.
#[verifier::opaque]
spec fn so_far(f: Seq<u8>, phoff: u64, n: int, m: UserMem, size: int) -> bool {
    &&& 0 <= size <= UPAGES * PGSIZE
    &&& forall|p: int| 0 <= p < round_up(size) / (PGSIZE as int) ==> #[trigger] own_page(m, p)
    &&& forall|p: int|
        p < UPAGES && #[trigger] m.pages.contains_key(p) ==> 0 <= p < round_up(size) / (PGSIZE as int)
    &&& forall|k: int| 0 <= k < n ==> #[trigger] header_ok(f, phoff, k, size)
    &&& forall|a: int|
        0 <= a < round_up(size) ==> #[trigger] m.byte(a) == expected(f, phoff, n, a)
    &&& forall|k: int, p: int| #[trigger]
        opens(f, phoff, k, p) && k < n ==> m.pages[p].flags == (PTE_R | PTE_U | header(
            f,
            phoff,
            k,
        ).perms()) | PTE_V
    &&& size > 0 ==> exists|k: int| #[trigger] reaches(f, phoff, n, k, size)
}

/// The section `k` of the first `n` reaches exactly up to `size`.
pub open spec fn reaches(f: Seq<u8>, phoff: u64, n: int, k: int, size: int) -> bool {
    &&& 0 <= k < n
    &&& loads(f, phoff, k)
    &&& header(f, phoff, k).vaddr + header(f, phoff, k).memsz == size
}

/// The section `k` is the first one that reaches to page `p`.
pub open spec fn opens(f: Seq<u8>, phoff: u64, k: int, p: int) -> bool {
    let ph = header(f, phoff, k);
    &&& 0 <= k
    &&& 0 <= p
    &&& loads(f, phoff, k)
    &&& p * PGSIZE < ph.vaddr + ph.memsz
    &&& forall|i: int|
        0 <= i < k && #[trigger] loads(f, phoff, i) ==> header(f, phoff, i).vaddr + header(
            f,
            phoff,
            i,
        ).memsz <= p * PGSIZE
}

/// The section can be loaded, is in the file and lies below `size`.
pub open spec fn section_ok(f: Seq<u8>, ph: ProgramHeader, size: int) -> bool {
    &&& ph.filesz <= ph.memsz
    &&& ph.vaddr + ph.memsz <= size
    &&& ph.vaddr % PGSIZE == 0
    &&& ph.inside(f)
}

/// The header `k` is there, and its section, if it is one to be loaded, is as it should be.
pub open spec fn header_ok(f: Seq<u8>, phoff: u64, k: int, size: int) -> bool {
    &&& header_there(f, phoff, k)
    &&& loads(f, phoff, k) ==> section_ok(f, header(f, phoff, k), size)
}

spec fn expected(f: Seq<u8>, phoff: u64, n: int, a: int) -> u8 {
    let k = source(f, phoff, n, a);
    if k < 0 {
        0
    } else {
        f[header(f, phoff, k).place(a)]
    }
}

pub(crate) proof fn lemma_flags(x: u64, f: u64)
    ensures
        flag((PTE_R | PTE_U | x) | PTE_V, PTE_U),
        !flag(f & !PTE_U, PTE_U),
        !flag(f & !(PTE_R | PTE_W), PTE_R),
        !flag(f & !(PTE_R | PTE_W), PTE_W),
        flag((PTE_R | PTE_U | PTE_W) | PTE_V, PTE_W),
{
    assert({
        &&& ((2u64 | 16u64 | x) | 1u64) & 16 != 0
        &&& (f & !16u64) & 16 == 0
        &&& (f & !(2u64 | 4u64)) & 2 == 0
        &&& (f & !(2u64 | 4u64)) & 4 == 0
        &&& ((2u64 | 16u64 | 4u64) | 1u64) & 4 != 0
    }) by (bit_vector);
}

/// Adding pages adds pages of zeros, and leaves the other ones alone.
pub(crate) proof fn lemma_pages_added(m: UserMem, start: int, n: int, end: int, flags: u64)
    requires
        0 <= start <= n,
        n <= UPAGES,
        m.add_pages(start, n, end, flags) matches Some((_, Ok(_))),
    ensures
        ({
            let m1 = (m.add_pages(start, n, end, flags)->0).0;
            &&& n < end ==> end <= UPAGES
            &&& forall|p: int| n <= p < end ==> #[trigger] m1.pages.contains_key(p)
            &&& forall|p: int|
                n <= p < end ==> #[trigger] m1.pages[p] == (UserPage {
                    flags: flags | PTE_V,
                    data: zero_page(),
                    refs: 1,
                })
            &&& forall|p: int|
                n <= p < end ==> m1.shape.tabs.contains(#[trigger] tab_of(p * PGSIZE))
            &&& forall|p: int|
                !(n <= p < end) ==> #[trigger] m1.pages.contains_key(p) == m.pages.contains_key(p)
            &&& forall|p: int| !(n <= p < end) ==> #[trigger] m1.pages[p] == m.pages[p]
            &&& forall|t: int| #[trigger] m.shape.tabs.contains(t) ==> m1.shape.tabs.contains(t)
        }),
    decreases end - n,
{
    if n < end {
        let (m2, _) = m.add_page(n, flags)->0;
        lemma_pages_added(m2, start, n + 1, end, flags);
        let m1 = (m.add_pages(start, n, end, flags)->0).0;
        assert(m2.shape.tabs.contains(tab_of(n * PGSIZE)));
        assert(m1.pages[n] == m2.pages[n]);
        assert(m1.pages.contains_key(n) == m2.pages.contains_key(n));
        assert(m2.pages.contains_key(n));
        assert forall|t: int| #[trigger] m.shape.tabs.contains(t) implies m1.shape.tabs.contains(t) by {
            assert(m2.shape.tabs.contains(t));
        }
    }
}

/// Loading a part of a section to a page of the program: the bytes of the file are at its start, and
/// no other byte is changed.
proof fn lemma_part(
    s: StoreState,
    sb: SuperBlock,
    dev: u32,
    d: InodeData,
    m: UserMem,
    va: int,
    offset: u32,
    k: u32,
)
    requires
        readable(s, dev, d),
        0 <= va,
        va % (PGSIZE as int) == 0,
        va / (PGSIZE as int) < UPAGES,
        own_page(m, va / (PGSIZE as int)),
        k <= PGSIZE,
    ensures
        s.load_part(sb, dev, d, m, va, offset, k) is Some,
        ({
            let f = contents(s, dev, d);
            let (s1, d1, m1, r) = s.load_part(sb, dev, d, m, va, offset, k)->0;
            &&& s1 == s && d1 == d
            &&& r is Ok <==> offset + k <= f.len()
            &&& m1.shape == m.shape
            &&& m1.pages.dom() == m.pages.dom()
            &&& forall|p: int| own_page(m, p) ==> #[trigger] own_page(m1, p)
            &&& forall|p: int| (#[trigger] m1.pages[p]).flags == m.pages[p].flags
            &&& r is Ok ==> forall|a: int|
                0 <= a ==> #[trigger] m1.byte(a) == (if va <= a < va + k {
                    f[offset + (a - va)]
                } else {
                    m.byte(a)
                })
        }),
{
    reveal(StoreState::load_part);
    let f = contents(s, dev, d);
    let n = va / (PGSIZE as int);
    law_read_exact(s, sb, dev, d, offset, k);
    assert(va == n * PGSIZE);
    assert(m.check(va) is Ok);
    let (s1, d1, m1, r) = s.load_part(sb, dev, d, m, va, offset, k)->0;
    if r is Ok {
        let bytes = f.subrange(offset as int, offset + k);
        assert(m1 == m.load(n, bytes));
        assert(m1.pages.dom() =~= m.pages.dom());
        assert forall|a: int| 0 <= a implies #[trigger] m1.byte(a) == (if va <= a < va + k {
            f[offset + (a - va)]
        } else {
            m.byte(a)
        }) by {
            if a / (PGSIZE as int) == n {
                assert(a - va == a % (PGSIZE as int));
            } else {
                assert(!(va <= a < va + PGSIZE));
            }
        }
    }
}

/// Loading a section, from its byte `i` on: page by page, all of it, and no other byte is changed.
proof fn lemma_segment(
    s: StoreState,
    sb: SuperBlock,
    dev: u32,
    d: InodeData,
    m: UserMem,
    va: int,
    offset: u32,
    size: int,
    i: int,
)
    requires
        readable(s, dev, d),
        0 <= va,
        0 <= i,
        va % (PGSIZE as int) == 0,
        i % (PGSIZE as int) == 0,
        va + size <= UPAGES * PGSIZE,
        forall|p: int|
            va / (PGSIZE as int) <= p && p * PGSIZE < va + size ==> #[trigger] own_page(m, p),
        s.load_segment(sb, dev, d, m, va, offset, size, i) is Some,
    ensures
        ({
            let f = contents(s, dev, d);
            let (s1, d1, m1, r) = s.load_segment(sb, dev, d, m, va, offset, size, i)->0;
            &&& s1 == s && d1 == d
            &&& r is Ok <==> i >= size || offset + size <= f.len()
            &&& m1.shape == m.shape
            &&& m1.pages.dom() == m.pages.dom()
            &&& forall|p: int| own_page(m, p) ==> #[trigger] own_page(m1, p)
            &&& forall|p: int| (#[trigger] m1.pages[p]).flags == m.pages[p].flags
            &&& r is Ok ==> forall|a: int|
                0 <= a ==> #[trigger] m1.byte(a) == (if va + i <= a < va + size {
                    f[offset + (a - va)]
                } else {
                    m.byte(a)
                })
        }),
    decreases size + PGSIZE - i,
{
    if i < size {
        let f = contents(s, dev, d);
        let k = if size - i < PGSIZE {
            size - i
        } else {
            PGSIZE as int
        };
        let p = (va + i) / (PGSIZE as int);
        assert(p * PGSIZE == va + i);
        assert(own_page(m, p));
        lemma_part(s, sb, dev, d, m, va + i, (offset + i) as u32, k as u32);
        let (s2, d2, m2, r2) = s.load_part(sb, dev, d, m, va + i, (offset + i) as u32, k as u32)->0;
        let (s1, d1, m1, r) = s.load_segment(sb, dev, d, m, va, offset, size, i)->0;
        if r2 is Ok {
            lemma_segment(s, sb, dev, d, m2, va, offset, size, i + PGSIZE);
            assert((s1, d1, m1, r) == s.load_segment(sb, dev, d, m2, va, offset, size, i + PGSIZE)->0);
            assert forall|p: int| own_page(m, p) implies #[trigger] own_page(m1, p) by {
                assert(own_page(m2, p));
            }
            assert forall|p: int| (#[trigger] m1.pages[p]).flags == m.pages[p].flags by {
                assert(m1.pages[p].flags == m2.pages[p].flags);
            }
            if r is Ok {
                assert forall|a: int| 0 <= a implies #[trigger] m1.byte(a) == (if va + i <= a < va
                    + size {
                    f[offset + (a - va)]
                } else {
                    m.byte(a)
                }) by {
                    assert(m2.byte(a) == (if va + i <= a < va + i + k {
                        f[(offset + i) as u32 + (a - (va + i))]
                    } else {
                        m.byte(a)
                    }));
                }
            }
        }
    }
}

/// Making room for one more section.
proof fn lemma_room(f: Seq<u8>, phoff: u64, n: int, m: UserMem, size: u64, ph: ProgramHeader)
    requires
        0 <= n,
        so_far(f, phoff, n, m, size as int),
        !ph.bad(),
        m.allocate(size as int, ph.vaddr + ph.memsz, ph.perms()) matches Some((_, Ok(_))),
    ensures
        ({
            let (m1, r) = m.allocate(size as int, ph.vaddr + ph.memsz, ph.perms())->0;
            let new = r->Ok_0;
            &&& new == (if ph.vaddr + ph.memsz < size {
                size as int
            } else {
                ph.vaddr + ph.memsz
            })
            &&& new <= UPAGES * PGSIZE
            &&& forall|p: int|
                0 <= p < round_up(new as int) / (PGSIZE as int) ==> #[trigger] own_page(m1, p)
            &&& forall|p: int|
                p < UPAGES && #[trigger] m1.pages.contains_key(p) ==> 0 <= p < round_up(new as int) / (
                PGSIZE as int)
            &&& forall|a: int|
                0 <= a < round_up(new as int) ==> #[trigger] m1.byte(a) == expected(f, phoff, n, a)
            &&& forall|p: int|
                0 <= p < round_up(size as int) / (PGSIZE as int) ==> #[trigger] m1.pages[p]
                    == m.pages[p]
            &&& forall|p: int|
                round_up(size as int) / (PGSIZE as int) <= p < round_up(new as int) / (
                PGSIZE as int) ==> (#[trigger] m1.pages[p]).flags == (PTE_R | PTE_U | ph.perms())
                    | PTE_V
        }),
{
    reveal(so_far);
    let end = ph.vaddr + ph.memsz;
    let (m1, r) = m.allocate(size as int, end, ph.perms())->0;
    let new = r->Ok_0;
    let first = round_up(size as int) / (PGSIZE as int);
    let last = round_up(new as int) / (PGSIZE as int);
    if end >= size {
        lemma_pages_added(m, first, first, last, PTE_R | PTE_U | ph.perms());
        lemma_flags(ph.perms(), 0);
        assert forall|p: int| 0 <= p < last implies #[trigger] own_page(m1, p) by {
            if p < first {
                assert(own_page(m, p));
                assert(m1.pages[p] == m.pages[p]);
                assert(m1.pages.contains_key(p) == m.pages.contains_key(p));
                assert(m.shape.tabs.contains(tab_of(p * PGSIZE)));
            } else {
                assert(m1.pages.contains_key(p));
                assert(m1.pages[p].data == zero_page());
                assert(m1.shape.tabs.contains(tab_of(p * PGSIZE)));
            }
        }
        assert forall|p: int| p < UPAGES && #[trigger] m1.pages.contains_key(p) implies 0 <= p < last by {
            if !(first <= p < last) {
                assert(m1.pages.contains_key(p) == m.pages.contains_key(p));
            }
        }
        assert forall|a: int| 0 <= a < round_up(new as int) implies #[trigger] m1.byte(a) == expected(
            f,
            phoff,
            n,
            a,
        ) by {
            let p = a / (PGSIZE as int);
            if p < first {
                assert(m1.pages[p] == m.pages[p]);
                assert(m1.byte(a) == m.byte(a));
            } else {
                assert(m1.pages[p].data == zero_page());
                lemma_source(f, phoff, n, a);
                let k = source(f, phoff, n, a);
                if k >= 0 {
                    assert(header_ok(f, phoff, k, size as int));
                }
            }
        }
    } else {
        assert(m1 == m);
    }
}

/// The memory with one more section in it: `m1` is the one with room for it, `m2` the one it is
/// loaded to.
proof fn lemma_loaded(
    f: Seq<u8>,
    phoff: u64,
    n: int,
    m: UserMem,
    size: int,
    m1: UserMem,
    new: int,
    m2: UserMem,
)
    requires
        0 <= n,
        so_far(f, phoff, n, m, size),
        header_there(f, phoff, n),
        loads(f, phoff, n),
        section_ok(f, header(f, phoff, n), new),
        new == (if header(f, phoff, n).vaddr + header(f, phoff, n).memsz < size {
            size
        } else {
            header(f, phoff, n).vaddr + header(f, phoff, n).memsz
        }),
        new <= UPAGES * PGSIZE,
        forall|p: int| 0 <= p < round_up(new) / (PGSIZE as int) ==> #[trigger] own_page(m1, p),
        forall|p: int|
            p < UPAGES && #[trigger] m1.pages.contains_key(p) ==> 0 <= p < round_up(new) / (
            PGSIZE as int),
        forall|a: int|
            0 <= a < round_up(new) ==> #[trigger] m1.byte(a) == expected(f, phoff, n, a),
        forall|p: int|
            0 <= p < round_up(size) / (PGSIZE as int) ==> #[trigger] m1.pages[p] == m.pages[p],
        forall|p: int|
            round_up(size) / (PGSIZE as int) <= p < round_up(new) / (PGSIZE as int) ==> (
            #[trigger] m1.pages[p]).flags == (PTE_R | PTE_U | header(f, phoff, n).perms()) | PTE_V,
        m2.pages.dom() == m1.pages.dom(),
        forall|p: int| own_page(m1, p) ==> #[trigger] own_page(m2, p),
        forall|p: int| (#[trigger] m2.pages[p]).flags == m1.pages[p].flags,
        forall|a: int|
            0 <= a ==> #[trigger] m2.byte(a) == (if header(f, phoff, n).covers(a) {
                f[header(f, phoff, n).place(a)]
            } else {
                m1.byte(a)
            }),
    ensures
        so_far(f, phoff, n + 1, m2, new),
{
    let ph = header(f, phoff, n);
    let first = round_up(size) / (PGSIZE as int);
    let last = round_up(new) / (PGSIZE as int);
    reveal(so_far);
    assert forall|p: int| 0 <= p < last implies #[trigger] own_page(m2, p) by {
        assert(own_page(m1, p));
    }
    assert forall|p: int| p < UPAGES && #[trigger] m2.pages.contains_key(p) implies 0 <= p
        < last by {
        assert(m1.pages.contains_key(p));
    }
    assert forall|a: int| 0 <= a < round_up(new) implies #[trigger] m2.byte(a) == expected(
        f,
        phoff,
        n + 1,
        a,
    ) by {
        assert(m1.byte(a) == expected(f, phoff, n, a));
        assert(covered_by(f, phoff, n, a) == ph.covers(a));
    }
    assert forall|k: int| 0 <= k < n + 1 implies #[trigger] header_ok(f, phoff, k, new) by {
        if k < n {
            assert(header_ok(f, phoff, k, size));
        }
    }
    assert forall|k: int, p: int| #[trigger]
        opens(f, phoff, k, p) && k < n + 1 implies m2.pages[p].flags == (PTE_R | PTE_U
        | header(f, phoff, k).perms()) | PTE_V by {
        assert(m2.pages[p].flags == m1.pages[p].flags);
        if k < n {
            assert(header_ok(f, phoff, k, size));
            assert(p < first);
            assert(m1.pages[p] == m.pages[p]);
        } else {
            if size > 0 {
                let i = choose|i: int| #[trigger] reaches(f, phoff, n, i, size);
                assert(loads(f, phoff, i));
            }
            assert(first <= p < last);
        }
    }
    if new > 0 {
        if new == ph.vaddr + ph.memsz {
            assert(reaches(f, phoff, n + 1, n, new));
        } else {
            let i = choose|i: int| #[trigger] reaches(f, phoff, n, i, size);
            assert(reaches(f, phoff, n + 1, i, new));
        }
    }
}

/// One more section: where it is loaded, the memory is as the headers say.
proof fn lemma_section(
    s: StoreState,
    sb: SuperBlock,
    dev: u32,
    d: InodeData,
    m: UserMem,
    size: u64,
    phoff: u64,
    n: int,
)
    requires
        readable(s, dev, d),
        0 <= n,
        so_far(contents(s, dev, d), phoff, n, m, size as int),
        header_there(contents(s, dev, d), phoff, n),
        loads(contents(s, dev, d), phoff, n),
        s.load_section(sb, dev, d, m, size, header(contents(s, dev, d), phoff, n)) is Some,
    ensures
        ({
            let f = contents(s, dev, d);
            let ph = header(f, phoff, n);
            let l = s.load_section(sb, dev, d, m, size, ph)->0;
            &&& l.store == s && l.d == d && !l.left
            &&& match l.result {
                Ok(_) => so_far(f, phoff, n + 1, l.mem, l.size as int),
                Err(e) => {
                    ||| e == ExecError::Header && ph.bad()
                    ||| e == ExecError::Memory && !ph.bad() && !ph.inside(f)
                    ||| e == ExecError::Alloc && !ph.bad()
                },
            }
        }),
{
    let f = contents(s, dev, d);
    let ph = header(f, phoff, n);
    let l = s.load_section(sb, dev, d, m, size, ph)->0;
    if !ph.bad() && (m.allocate(size as int, ph.vaddr + ph.memsz, ph.perms())->0).1 is Ok {
        lemma_room(f, phoff, n, m, size, ph);
        let (m1, r) = m.allocate(size as int, ph.vaddr + ph.memsz, ph.perms())->0;
        let new = r->Ok_0 as int;
        let last = round_up(new) / (PGSIZE as int);
        assert forall|p: int|
            ph.vaddr as int / (PGSIZE as int) <= p && p * PGSIZE < ph.vaddr
                + ph.filesz implies #[trigger] own_page(m1, p) by {
            assert(0 <= p < last);
        }
        lemma_segment(
            s,
            sb,
            dev,
            d,
            m1,
            ph.vaddr as int,
            ph.offset as u32,
            ph.filesz as int,
            0,
        );
        if l.result is Ok {
            let m2 = l.mem;
            assert(new == l.size);
            lemma_loaded(f, phoff, n, m, size as int, m1, new, m2);
        }
    }
}

/// Why the program cannot be loaded: there is something wrong with header `k`, or there was no
/// memory for its section.
pub open spec fn fails(f: Seq<u8>, phoff: u64, k: int, e: ExecError) -> bool {
    let ph = header(f, phoff, k);
    match e {
        ExecError::Header => header_there(f, phoff, k) && loads(f, phoff, k) && ph.bad(),
        ExecError::Memory => !header_there(f, phoff, k) || (loads(f, phoff, k) && !ph.inside(f)),
        ExecError::Alloc => header_there(f, phoff, k) && loads(f, phoff, k) && !ph.bad(),
        _ => false,
    }
}

/// Loading the sections from header `i` on.
proof fn lemma_program(
    s: StoreState,
    sb: SuperBlock,
    dev: u32,
    d: InodeData,
    m: UserMem,
    size: u64,
    phoff: u64,
    i: int,
    n: int,
)
    requires
        readable(s, dev, d),
        0 <= i <= n,
        phoff + i * ProgramHeader::SIZE <= u64::MAX,
        so_far(contents(s, dev, d), phoff, i, m, size as int),
        s.load_program(sb, dev, d, m, size, (phoff + i * ProgramHeader::SIZE) as u64, n - i) is Some,
    ensures
        ({
            let f = contents(s, dev, d);
            let l = s.load_program(
                sb,
                dev,
                d,
                m,
                size,
                (phoff + i * ProgramHeader::SIZE) as u64,
                n - i,
            )->0;
            &&& l.store == s && l.d == d
            &&& match l.result {
                Ok(_) => so_far(f, phoff, n, l.mem, l.size as int),
                Err(e) => exists|k: int| 0 <= k < n && #[trigger] fails(f, phoff, k, e),
            }
        }),
    decreases n - i,
{
    if i < n {
        let f = contents(s, dev, d);
        let at = (phoff + i * ProgramHeader::SIZE) as u64;
        law_read_exact(s, sb, dev, d, at as u32, ProgramHeader::SIZE as u32);
        let next = (phoff + (i + 1) * ProgramHeader::SIZE) as u64;
        let l = s.load_program(sb, dev, d, m, size, at, n - i)->0;
        assert(header_there(f, phoff, i) <==> at as u32 + ProgramHeader::SIZE <= f.len()) by {
            reveal(header_there);
        }
        if !header_there(f, phoff, i) {
            assert(fails(f, phoff, i, l.result->Err_0));
        } else {
            let ph = header(f, phoff, i);
            assert(ph == ProgramHeader::of(f.subrange((at as u32) as int, at as u32 + ProgramHeader::SIZE)))
                by {
                reveal(header);
            }
            assert(at + ProgramHeader::SIZE <= u64::MAX);
            assert(next == (at + ProgramHeader::SIZE) as u64);
            if !loads(f, phoff, i) {
                assert(l == s.load_program(sb, dev, d, m, size, next, n - i - 1)->0);
                lemma_skipped(f, phoff, i, m, size as int);
                lemma_program(s, sb, dev, d, m, size, phoff, i + 1, n);
            } else {
                lemma_section(s, sb, dev, d, m, size, phoff, i);
                let l1 = s.load_section(sb, dev, d, m, size, ph)->0;
                if l1.result is Ok {
                    assert(l == s.load_program(sb, dev, d, l1.mem, l1.size, next, n - i - 1)->0);
                    lemma_program(s, sb, dev, d, l1.mem, l1.size, phoff, i + 1, n);
                } else {
                    assert(fails(f, phoff, i, l.result->Err_0));
                }
            }
        }
    }
}

/// A header of another type changes nothing.
proof fn lemma_skipped(f: Seq<u8>, phoff: u64, n: int, m: UserMem, size: int)
    requires
        0 <= n,
        so_far(f, phoff, n, m, size),
        header_there(f, phoff, n),
        !loads(f, phoff, n),
    ensures
        so_far(f, phoff, n + 1, m, size),
{
    reveal(so_far);
    if size > 0 {
        let i = choose|i: int| #[trigger] reaches(f, phoff, n, i, size);
        assert(reaches(f, phoff, n + 1, i, size));
    }
    assert forall|a: int| 0 <= a < round_up(size) implies #[trigger] m.byte(a) == expected(
        f,
        phoff,
        n + 1,
        a,
    ) by {
        assert(!covered_by(f, phoff, n, a));
    }
    assert forall|k: int, p: int| #[trigger]
        opens(f, phoff, k, p) && k < n + 1 implies m.pages[p].flags == (PTE_R | PTE_U | header(
        f,
        phoff,
        k,
    ).perms()) | PTE_V by {
        assert(k != n);
    }
}

/// Of the `n` headers, `k` is the last one whose section has a byte for the address `a`.
pub open spec fn last_for(f: Seq<u8>, phoff: u64, n: int, k: int, a: int) -> bool {
    &&& 0 <= k < n
    &&& covered_by(f, phoff, k, a)
    &&& forall|i: int| k < i < n ==> !#[trigger] covered_by(f, phoff, i, a)
}

/// None of the `n` sections has a byte for the address `a`.
pub open spec fn uncovered(f: Seq<u8>, phoff: u64, n: int, a: int) -> bool {
    forall|i: int| 0 <= i < n ==> !#[trigger] covered_by(f, phoff, i, a)
}

/// The memory `m` up to `size` is what the `n` headers at `phoff` of the file `f` say.
pub open spec fn is_image(f: Seq<u8>, phoff: u64, n: int, m: UserMem, size: int) -> bool {
    // every section is all there
    &&& forall|k: int| 0 <= k < n ==> #[trigger] header_ok(f, phoff, k, size)
    &&& forall|a: int| 0 <= a < size ==> #[trigger] m.at(a)
    // with the bytes of the file: where sections overlap, with those of the last one
    &&& forall|k: int, a: int| #[trigger]
        last_for(f, phoff, n, k, a) ==> m.byte(a) == f[header(f, phoff, k).place(a)]
    // and zeros elsewhere
    &&& forall|a: int| 0 <= a < size && #[trigger] uncovered(f, phoff, n, a) ==> m.byte(a) == 0
    // in pages with the permissions of the first section that reaches there
    &&& forall|k: int, p: int| #[trigger]
        opens(f, phoff, k, p) && k < n ==> m.pages[p].flags == (PTE_R | PTE_U | header(
            f,
            phoff,
            k,
        ).perms()) | PTE_V
    // and nothing else is there
    &&& size > 0 ==> exists|k: int| #[trigger] reaches(f, phoff, n, k, size)
    &&& forall|p: int|
        p < UPAGES && #[trigger] m.pages.contains_key(p) ==> 0 <= p && p * PGSIZE < size
    &&& forall|p: int| 0 <= p && p * PGSIZE < size ==> #[trigger] own_page(m, p)
}

/// Loading a program puts all bytes of its sections, as its file has them, to their addresses, zeros
/// to the others up to its size, and changes nothing on the disk. It fails only if there is something
/// wrong with a header, or no memory.
pub proof fn law_program_is_loaded(
    s: StoreState,
    sb: SuperBlock,
    dev: u32,
    d: InodeData,
    left: nat,
    phoff: u64,
    n: int,
)
    requires
        readable(s, dev, d),
        0 <= n,
        s.load_program(sb, dev, d, UserMem::fresh(left), 0, phoff, n) is Some,
    ensures
        ({
            let f = contents(s, dev, d);
            let l = s.load_program(sb, dev, d, UserMem::fresh(left), 0, phoff, n)->0;
            &&& l.store == s && l.d == d
            &&& match l.result {
                Ok(_) => is_image(f, phoff, n, l.mem, l.size as int) && l.size <= UPAGES * PGSIZE,
                Err(e) => exists|k: int| 0 <= k < n && #[trigger] fails(f, phoff, k, e),
            }
        }),
{
    let f = contents(s, dev, d);
    let m = UserMem::fresh(left);
    assert(so_far(f, phoff, 0, m, 0)) by {
        reveal(so_far);
    }
    assert(n - 0 == n && phoff + 0 * ProgramHeader::SIZE == phoff);
    lemma_program(s, sb, dev, d, m, 0, phoff, 0, n);
    let l = s.load_program(sb, dev, d, m, 0, phoff, n)->0;
    if l.result is Ok {
        lemma_image(f, phoff, n, l.mem, l.size as int);
    }
}

proof fn lemma_image(f: Seq<u8>, phoff: u64, n: int, m: UserMem, size: int)
    requires
        so_far(f, phoff, n, m, size),
    ensures
        is_image(f, phoff, n, m, size),
        size <= UPAGES * PGSIZE,
{
    reveal(so_far);
    assert forall|a: int| 0 <= a < size implies #[trigger] m.at(a) by {
        assert(own_page(m, a / (PGSIZE as int)));
    }
    assert forall|k: int, a: int| #[trigger] last_for(f, phoff, n, k, a) implies m.byte(a)
        == f[header(f, phoff, k).place(a)] by {
        lemma_source(f, phoff, n, a);
        let j = source(f, phoff, n, a);
        assert(!(j < k)) by {
            assert(covered_by(f, phoff, k, a));
        }
        assert(!(k < j)) by {
            assert(covered_by(f, phoff, j, a));
        }
        assert(header_ok(f, phoff, k, size));
        assert(m.byte(a) == expected(f, phoff, n, a));
    }
    assert forall|a: int| 0 <= a < size && #[trigger] uncovered(f, phoff, n, a) implies m.byte(a)
        == 0 by {
        lemma_source(f, phoff, n, a);
        assert(m.byte(a) == expected(f, phoff, n, a));
        assert(!covered_by(f, phoff, source(f, phoff, n, a), a) || source(f, phoff, n, a) < 0);
    }
}

proof fn lemma_u64_at(s: Seq<u8>, off: int, v: u64)
    requires
        0 <= off,
        off + 8 <= s.len(),
        s.subrange(off, off + 8) == u64_bytes(v),
    ensures
        u64_at(s, off) == v,
{
    let low = (v % 0x1_0000_0000) as u32;
    let high = (v / 0x1_0000_0000) as u32;
    assert(s.subrange(off, off + 4) =~= u32_bytes(low)) by {
        assert(s.subrange(off, off + 4) =~= s.subrange(off, off + 8).subrange(0, 4));
        assert(u64_bytes(v).subrange(0, 4) =~= u32_bytes(low));
    }
    assert(s.subrange(off + 4, off + 8) =~= u32_bytes(high)) by {
        assert(s.subrange(off + 4, off + 8) =~= s.subrange(off, off + 8).subrange(4, 8));
        assert(u64_bytes(v).subrange(4, 8) =~= u32_bytes(high));
    }
    lemma_u32_at(s, off, low);
    lemma_u32_at(s, off + 4, high);
}

/// Where the header of a program file has what: behind the mark and twenty more bytes come the start
/// and the place of the headers of sections, and behind sixteen more bytes their number.
pub proof fn law_elf_layout(
    magic: u32,
    one: Seq<u8>,
    entry: u64,
    phoff: u64,
    two: Seq<u8>,
    phnum: u16,
    three: Seq<u8>,
)
    requires
        one.len() == 20,
        two.len() == 16,
        three.len() == 6,
    ensures
        ({
            let bytes = u32_bytes(magic) + one + u64_bytes(entry) + u64_bytes(phoff) + two
                + u16_bytes(phnum) + three;
            &&& bytes.len() == ElfHeader::SIZE
            &&& ElfHeader::of(bytes) == (ElfHeader { magic, entry, phoff, phnum })
        }),
{
    let bytes = u32_bytes(magic) + one + u64_bytes(entry) + u64_bytes(phoff) + two + u16_bytes(
        phnum,
    ) + three;
    assert(bytes.subrange(0, 4) =~= u32_bytes(magic));
    assert(bytes.subrange(24, 32) =~= u64_bytes(entry));
    assert(bytes.subrange(32, 40) =~= u64_bytes(phoff));
    assert(bytes.subrange(56, 58) =~= u16_bytes(phnum));
    lemma_u32_at(bytes, 0, magic);
    lemma_u64_at(bytes, 24, entry);
    lemma_u64_at(bytes, 32, phoff);
    lemma_u16_at(bytes, 56, phnum);
}

/// Where the header of a section has what.
pub proof fn law_section_layout(ph: ProgramHeader, paddr: u64, alignment: u64)
    ensures
        ({
            let bytes = u32_bytes(ph.typ) + u32_bytes(ph.flags) + u64_bytes(ph.offset) + u64_bytes(
                ph.vaddr,
            ) + u64_bytes(paddr) + u64_bytes(ph.filesz) + u64_bytes(ph.memsz) + u64_bytes(
                alignment,
            );
            &&& bytes.len() == ProgramHeader::SIZE
            &&& ProgramHeader::of(bytes) == ph
        }),
{
    let bytes = u32_bytes(ph.typ) + u32_bytes(ph.flags) + u64_bytes(ph.offset) + u64_bytes(ph.vaddr)
        + u64_bytes(paddr) + u64_bytes(ph.filesz) + u64_bytes(ph.memsz) + u64_bytes(alignment);
    assert(bytes.subrange(0, 4) =~= u32_bytes(ph.typ));
    assert(bytes.subrange(4, 8) =~= u32_bytes(ph.flags));
    assert(bytes.subrange(8, 16) =~= u64_bytes(ph.offset));
    assert(bytes.subrange(16, 24) =~= u64_bytes(ph.vaddr));
    assert(bytes.subrange(32, 40) =~= u64_bytes(ph.filesz));
    assert(bytes.subrange(40, 48) =~= u64_bytes(ph.memsz));
    lemma_u32_at(bytes, 0, ph.typ);
    lemma_u32_at(bytes, 4, ph.flags);
    lemma_u64_at(bytes, 8, ph.offset);
    lemma_u64_at(bytes, 16, ph.vaddr);
    lemma_u64_at(bytes, 32, ph.filesz);
    lemma_u64_at(bytes, 40, ph.memsz);
}

/// The pages of a section can be executed if its first flag is set, and written if its second one is;
/// they can always be read.
pub proof fn law_section_permissions(ph: ProgramHeader)
    ensures
        ({
            let flags = (PTE_R | PTE_U | ph.perms()) | PTE_V;
            &&& flag(flags, PTE_R)
            &&& flag(flags, PTE_U)
            &&& flag(flags, PTE_X) <==> ph.flags % 2 == 1
            &&& flag(flags, PTE_W) <==> (ph.flags / 2) % 2 == 1
        }),
{
    let f = ph.flags;
    let x = ph.perms();
    assert({
        &&& (f & 1 != 0) == (f % 2 == 1)
        &&& (f & 2 != 0) == ((f / 2) % 2 == 1)
        &&& ((2u64 | 16u64 | x) | 1u64) & 2 != 0
        &&& ((2u64 | 16u64 | x) | 1u64) & 8 == x & 8
        &&& ((2u64 | 16u64 | x) | 1u64) & 4 == x & 4
        &&& (8u64 | 4u64) & 8 != 0 && (8u64 | 4u64) & 4 != 0
        &&& 8u64 & 8 != 0 && 8u64 & 4 == 0 && 4u64 & 4 != 0 && 4u64 & 8 == 0
        &&& 0u64 & 8 == 0 && 0u64 & 4 == 0
    }) by (bit_vector);
    lemma_flags(x, 0);
}

} // verus!
