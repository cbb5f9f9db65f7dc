//! What a program finds on its stack: its arguments.
use vstd::prelude::*;
use crate::exec::laws::{lemma_flags, lemma_pages_added};
use crate::exec::stack::{align, numbers};
use crate::exec::ExecError;
use crate::fs::user_laws::lemma_widen;
use crate::le::u64_bytes;
use crate::param::{MAXARG, USERSTACK};
use crate::riscv::{round_up, MAXVA, PGSIZE, PTE_R, PTE_U, PTE_W};
use crate::vm::bytes::{law_copy_to_bytes, law_copy_to_succeeds};
use crate::vm::flag;
use crate::vm::usermem::{UserMem, UPAGES};

verus! {

/// The same pages are there, with the same permissions.
pub open spec fn same_pages(m: UserMem, m1: UserMem) -> bool {
    &&& m1.pages.dom() == m.pages.dom()
    &&& forall|p: int| #[trigger] m.pages.contains_key(p) ==> m1.pages[p].flags == m.pages[p].flags
}

/// Every byte from `from` up to `to` can be written.
pub open spec fn writable(m: UserMem, from: int, to: int) -> bool {
    forall|a: int| from <= a < to ==> #[trigger] m.can_write(a)
}

/// The argument `q` stands at its address, with a zero byte behind it, below those before it.
pub open spec fn arg_at(m: UserMem, at: Seq<u64>, argv: Seq<Seq<u8>>, q: int, top: int) -> bool {
    &&& at[q] % 16 == 0
    &&& m.shows(at[q] as int, argv[q].push(0))
    &&& at[q] + argv[q].len() + 1 <= (if q == 0 {
        top
    } else {
        at[q - 1] as int
    })
}

/// How many bytes of the stack the arguments from `i` on can need.
pub open spec fn needed(argv: Seq<Seq<u8>>, i: int) -> int
    decreases argv.len() - i,
{
    if i >= argv.len() {
        0
    } else {
        argv[i].len() + 16 + needed(argv, i + 1)
    }
}

proof fn lemma_needed(argv: Seq<Seq<u8>>, i: int)
    ensures
        needed(argv, i) >= 0,
    decreases argv.len() - i,
{
    if i < argv.len() {
        lemma_needed(argv, i + 1);
    }
}

proof fn lemma_writable(m: UserMem, m1: UserMem, from: int, to: int)
    requires
        writable(m, from, to),
        same_pages(m, m1),
    ensures
        writable(m1, from, to),
{
    assert forall|a: int| from <= a < to implies #[trigger] m1.can_write(a) by {
        assert(m.can_write(a));
        assert(m.pages.contains_key(a / (PGSIZE as int)));
    }
}

/// Writing where all can be written.
proof fn lemma_written(m: UserMem, size: int, va: int, src: Seq<u8>)
    requires
        m.whole(),
        0 <= va,
        va + src.len() <= UPAGES * PGSIZE,
        writable(m, va, va + src.len()),
        m.copy_to(size, va, src) is Some,
    ensures
        ({
            let (m1, r) = m.copy_to(size, va, src)->0;
            &&& r is Ok
            &&& m1.whole()
            &&& m1.shows(va, src)
            &&& m.only_within(m1, va, va + src.len())
            &&& same_pages(m, m1)
        }),
{
    law_copy_to_bytes(m, size, va, src);
    law_copy_to_succeeds(m, size, va, src);
    let (m1, r) = m.copy_to(size, va, src)->0;
    assert(m1.pages.dom() =~= m.pages.dom()) by {
        assert forall|p: int| m1.pages.dom().contains(p) == m.pages.dom().contains(p) by {
            assert(m1.pages.contains_key(p) == m.pages.contains_key(p));
        }
    }
}

/// Putting the arguments from `i` on to the stack.
proof fn lemma_push_args(
    m: UserMem,
    size: int,
    sp: int,
    base: int,
    argv: Seq<Seq<u8>>,
    i: int,
    at: Seq<u64>,
    top: int,
)
    requires
        m.whole(),
        0 <= i <= argv.len(),
        0 <= base <= sp <= UPAGES * PGSIZE,
        at.len() == i,
        sp == (if i == 0 {
            top
        } else {
            at[i - 1] as int
        }),
        writable(m, base, sp),
        m.push_args(size, sp, base, argv, i, at) is Some,
    ensures
        ({
            let (m1, r) = m.push_args(size, sp, base, argv, i, at)->0;
            &&& m1.whole()
            &&& same_pages(m, m1)
            &&& match r {
                Ok((sp1, at1)) => {
                    &&& base <= sp1 <= sp
                    &&& i < argv.len() ==> sp1 == at1.last()
                    &&& i == argv.len() ==> sp1 == sp
                    &&& at1.len() == argv.len()
                    &&& at1.take(i) == at
                    &&& m.only_within(m1, sp1, sp)
                    &&& forall|q: int|
                        i <= q < argv.len() ==> #[trigger] arg_at(m1, at1, argv, q, top)
                    &&& sp - sp1 <= needed(argv, i)
                },
                Err(e) => e == ExecError::Memory && (argv.len() > MAXARG || needed(argv, i) > sp
                    - base),
            }
        }),
    decreases argv.len() - i,
{
    let (m1, r) = m.push_args(size, sp, base, argv, i, at)->0;
    m.lemma_same_within(m, sp, sp);
    if i >= argv.len() {
        assert(at.take(i) =~= at);
    } else if i < MAXARG {
        let n = argv[i].len() as int;
        let to = align(sp - n - 1);
        lemma_needed(argv, i + 1);
        if to >= base {
            assert(to % 16 == 0 && to + n + 1 <= sp);
            assert forall|a: int| to <= a < to + n implies #[trigger] m.can_write(a) by {}
            lemma_written(m, size, to, argv[i]);
            let (m2, _) = m.copy_to(size, to, argv[i])->0;
            lemma_writable(m, m2, base, sp);
            reveal(UserMem::put_byte);
            assert forall|a: int| to + n <= a < to + n + 1 implies #[trigger] m2.can_write(a) by {}
            lemma_written(m2, size, to + n, seq![0u8]);
            let (m3, _) = m2.put_byte(size, to + n, 0)->0;
            lemma_writable(m2, m3, base, sp);
            let at2 = at.push(to as u64);
            assert forall|a: int| base <= a < to implies #[trigger] m3.can_write(a) by {}
            lemma_push_args(m3, size, to, base, argv, i + 1, at2, top);
            assert((m1, r) == m3.push_args(size, to, base, argv, i + 1, at2)->0);
            assert(same_pages(m, m1)) by {
                assert forall|p: int| #[trigger] m.pages.contains_key(p) implies m1.pages[p].flags
                    == m.pages[p].flags by {
                    assert(m2.pages.contains_key(p) && m3.pages.contains_key(p));
                }
            }
            if let Ok((sp1, at1)) = r {
                m2.lemma_still_shows(m3, to, argv[i], to + n, to + n + 1);
                m3.lemma_shows_both(to, argv[i], seq![0u8]);
                assert(argv[i] + seq![0u8] =~= argv[i].push(0));
                m3.lemma_still_shows(m1, to, argv[i].push(0), sp1, to);
                assert(at1.take(i) =~= at) by {
                    assert(at1.take(i + 1).take(i) =~= at1.take(i));
                    assert(at2.take(i) =~= at);
                }
                assert(at1[i] == to) by {
                    assert(at1.take(i + 1)[i] == at2[i]);
                }
                if i > 0 {
                    assert(at1[i - 1] == at[i - 1]) by {
                        assert(at1.take(i)[i - 1] == at[i - 1]);
                    }
                }
                assert(arg_at(m1, at1, argv, i, top));
                lemma_widen(m, m2, to, to + n, sp1, sp);
                lemma_widen(m2, m3, to + n, to + n + 1, sp1, sp);
                lemma_widen(m3, m1, sp1, to, sp1, sp);
                m.lemma_within_trans(m2, m3, sp1, sp);
                m.lemma_within_trans(m3, m1, sp1, sp);
                if i + 1 == argv.len() {
                    assert(at1.last() == at1[i]);
                }
            }
        }
    }
}

/// The bytes of each number stand where they should.
proof fn lemma_numbers(hs: Seq<u64>, q: int)
    requires
        0 <= q < hs.len(),
    ensures
        numbers(hs).len() == 8 * hs.len(),
        numbers(hs).subrange(8 * q, 8 * q + 8) == u64_bytes(hs[q]),
    decreases hs.len(),
{
    let front = hs.drop_last();
    if front.len() > 0 {
        lemma_numbers(front, if q < front.len() {
            q
        } else {
            0
        });
    }
    assert(numbers(hs) == numbers(front) + u64_bytes(hs.last()));
    assert(u64_bytes(hs.last()).len() == 8);
    if q < front.len() {
        assert(numbers(hs).subrange(8 * q, 8 * q + 8) =~= numbers(front).subrange(8 * q, 8 * q + 8));
    } else {
        assert(numbers(hs).subrange(8 * q, 8 * q + 8) =~= u64_bytes(hs.last()));
    }
}

/// At `sp` there are the addresses `at` of the arguments and a zero, and at each address is the
/// argument, ended by a zero byte.
pub open spec fn args_there(m: UserMem, sp: int, top: int, argv: Seq<Seq<u8>>, at: Seq<u64>) -> bool {
    &&& at.len() == argv.len()
    &&& forall|q: int|
        0 <= q < argv.len() ==> sp + 8 * (argv.len() + 1) <= #[trigger] at[q]
    &&& forall|q: int| 0 <= q < argv.len() ==> #[trigger] arg_at(m, at, argv, q, top)
    &&& forall|q: int|
        0 <= q < argv.len() ==> m.shows(sp + 8 * q, u64_bytes(#[trigger] at[q]))
    &&& m.shows(sp + 8 * argv.len(), u64_bytes(0))
}

/// A piece of what is shown.
proof fn lemma_shows_piece(m: UserMem, a: int, bytes: Seq<u8>, from: int, to: int)
    requires
        m.shows(a, bytes),
        0 <= from <= to <= bytes.len(),
    ensures
        m.shows(a + from, bytes.subrange(from, to)),
{
    let part = bytes.subrange(from, to);
    assert forall|j: int| 0 <= j < part.len() implies #[trigger] m.shows_one(a + from, part, j) by {
        assert(m.shows_one(a, bytes, from + j));
        assert(a + (from + j) == a + from + j);
    }
}

/// The stack with the arguments.
proof fn lemma_push_argv(m: UserMem, size: int, sp: int, base: int, argv: Seq<Seq<u8>>)
    requires
        m.whole(),
        0 <= base <= sp <= UPAGES * PGSIZE,
        writable(m, base, sp),
        m.push_argv(size, sp, base, argv) is Some,
    ensures
        ({
            let (m1, r) = m.push_argv(size, sp, base, argv)->0;
            &&& m1.whole()
            &&& same_pages(m, m1)
            &&& match r {
                Ok(sp1) => {
                    &&& base <= sp1 <= sp
                    &&& sp1 % 16 == 0
                    &&& argv.len() < MAXARG
                    &&& m.only_within(m1, sp1 as int, sp)
                    &&& exists|at: Seq<u64>| #[trigger] args_there(m1, sp1 as int, sp, argv, at)
                },
                Err(e) => e == ExecError::Memory && (argv.len() > MAXARG || needed(argv, 0) + 8 * (
                argv.len() + 1) + 15 > sp - base),
            }
        }),
{
    let (m1, r) = m.push_argv(size, sp, base, argv)->0;
    lemma_push_args(m, size, sp, base, argv, 0, seq![], sp);
    let (m2, r2) = m.push_args(size, sp, base, argv, 0, seq![])->0;
    lemma_writable(m, m2, base, sp);
    if let Ok((sp2, at)) = r2 {
        let to = align(sp2 - (argv.len() + 1) * 8);
        let all = at.push(0);
        lemma_numbers(all, 0);
        if to >= base {
            assert forall|a: int| to <= a < to + numbers(all).len() implies #[trigger] m2.can_write(
                a,
            ) by {}
            lemma_written(m2, size, to, numbers(all));
            assert(m2.only_within(m1, to, to + numbers(all).len()));
            lemma_widen(m, m2, sp2, sp, to, sp);
            lemma_widen(m2, m1, to, to + numbers(all).len(), to, sp);
            m.lemma_within_trans(m2, m1, to, sp);
            assert(same_pages(m, m1)) by {
                assert forall|p: int| #[trigger] m.pages.contains_key(p) implies m1.pages[p].flags
                    == m.pages[p].flags by {
                    assert(m2.pages.contains_key(p));
                }
            }
            assert forall|q: int| 0 <= q < argv.len() implies to + 8 * (argv.len() + 1)
                <= #[trigger] at[q] by {
                lemma_below(m2, at, argv, q, sp);
            }
            assert forall|q: int| 0 <= q < argv.len() implies #[trigger] arg_at(m1, at, argv, q, sp) by {
                assert(arg_at(m2, at, argv, q, sp));
                lemma_below(m2, at, argv, q, sp);
                m2.lemma_still_shows(
                    m1,
                    at[q] as int,
                    argv[q].push(0),
                    to,
                    to + numbers(all).len(),
                );
            }
            assert forall|q: int| 0 <= q < argv.len() implies m1.shows(
                to + 8 * q,
                u64_bytes(#[trigger] at[q]),
            ) by {
                lemma_numbers(all, q);
                lemma_shows_piece(m1, to, numbers(all), 8 * q, 8 * q + 8);
                assert(all[q] == at[q]);
            }
            let z = argv.len() as int;
            lemma_numbers(all, z);
            lemma_shows_piece(m1, to, numbers(all), 8 * z, 8 * z + 8);
            assert(args_there(m1, to, sp, argv, at));
        }
    }
}

/// Later arguments stand below earlier ones.
proof fn lemma_below(m: UserMem, at: Seq<u64>, argv: Seq<Seq<u8>>, q: int, top: int)
    requires
        0 <= q < argv.len(),
        at.len() == argv.len(),
        forall|q: int| 0 <= q < argv.len() ==> #[trigger] arg_at(m, at, argv, q, top),
    ensures
        at.last() <= at[q],
        at[q] + argv[q].len() + 1 <= top,
{
    lemma_down(m, at, argv, q, at.len() - 1, top);
    if q > 0 {
        lemma_down(m, at, argv, 0, q - 1, top);
    }
    assert(arg_at(m, at, argv, 0, top));
    assert(arg_at(m, at, argv, q, top));
}

proof fn lemma_down(m: UserMem, at: Seq<u64>, argv: Seq<Seq<u8>>, p: int, q: int, top: int)
    requires
        0 <= p <= q < argv.len(),
        at.len() == argv.len(),
        forall|q: int| 0 <= q < argv.len() ==> #[trigger] arg_at(m, at, argv, q, top),
    ensures
        at[q] <= at[p],
    decreases q - p,
{
    if p < q {
        assert(arg_at(m, at, argv, q, top));
        lemma_down(m, at, argv, p, q - 1, top);
    }
}

/// The stack of a new program: `m1` up to `end` is the memory `m` up to `old_end` and above it a page
/// that the program cannot use and then the stack. At the stack pointer `sp`, which is aligned, are
/// the addresses of the arguments. Nothing of the program is changed but that page 0 can be neither
/// read nor written.
pub open spec fn with_args(
    m: UserMem,
    old_end: int,
    m1: UserMem,
    end: int,
    sp: int,
    argv: Seq<Seq<u8>>,
) -> bool {
    let guard = round_up(old_end) / (PGSIZE as int);
    &&& end == round_up(old_end) + (1 + USERSTACK) * PGSIZE
    &&& end - USERSTACK * PGSIZE <= sp <= end
    &&& sp % 16 == 0
    &&& exists|at: Seq<u64>| #[trigger] args_there(m1, sp, end, argv, at)
    &&& m.only_within(m1, sp, end)
    &&& !m1.user(guard)
    &&& writable(m1, end - USERSTACK * PGSIZE, end)
    &&& forall|p: int|
        0 < p < guard ==> #[trigger] m1.pages.contains_key(p) == m.pages.contains_key(p)
    &&& forall|p: int|
        0 < p < guard && #[trigger] m.pages.contains_key(p) ==> m1.pages[p].flags == m.pages[p].flags
    &&& m1.user(0) && guard > 0 ==> !flag(m1.pages[0].flags, PTE_R) && !flag(
        m1.pages[0].flags,
        PTE_W,
    )
}

/// A program gets a stack with its arguments, if there is memory and they fit on it.
pub proof fn law_stack(m: UserMem, size: int, end: u64, argv: Seq<Seq<u8>>)
    requires
        m.whole(),
        end <= UPAGES * PGSIZE,
        m.within(end as int),
        m.user(0) ==> m.shape.tabs.contains(0),
        m.with_stack(size, end, argv) is Some,
    ensures
        ({
            let (m1, end1, r) = m.with_stack(size, end, argv)->0;
            match r {
                Ok(sp) => {
                    &&& m1.whole()
                    &&& argv.len() < MAXARG
                    &&& with_args(m, end as int, m1, end1 as int, sp as int, argv)
                },
                Err(ExecError::Memory) => argv.len() > MAXARG || needed(argv, 0) + 8 * (argv.len()
                    + 1) + 15 > USERSTACK * PGSIZE,
                Err(e) => e == ExecError::Alloc,
            }
        }),
{
    let top = round_up(end as int);
    let n = top / (PGSIZE as int);
    let (m1, end1, r) = m.with_stack(size, end, argv)->0;
    let (m2, _) = m.revoke(0)->0;
    let flags = m.pages[0].flags;
    lemma_flags(PTE_W, flags);
    assert(m2.whole()) by {
        assert forall|p: int| #[trigger] m2.pages.contains_key(p) && p < UPAGES implies m2.pages[p].data.len()
            == PGSIZE by {
            assert(m.pages.contains_key(p));
        }
    }
    assert(top + (USERSTACK + 1) * PGSIZE == (n + 2) * PGSIZE);
    assert(round_up(top) == top);
    assert(round_up(top + (USERSTACK + 1) * PGSIZE) == (n + 2) * PGSIZE);
    let a = m2.allocate(top, top + (USERSTACK + 1) * PGSIZE, PTE_W)->0;
    if a.1 is Ok {
        let m3 = a.0;
        let end2 = a.1->Ok_0;
        let fl = PTE_R | PTE_U | PTE_W;
        lemma_pages_added(m2, n, n, n + 2, fl);
        assert(m3.pages.contains_key(n) && m3.pages.contains_key(n + 1));
        assert(m3.pages[n].data == crate::kalloc::zero_page());
        assert(m3.pages[n + 1].data == crate::kalloc::zero_page());
        assert(m3.shape.tabs.contains(crate::vm::pagetable::tab_of(n * PGSIZE)));
        lemma_flags(PTE_W, m3.pages[n].flags);
        let (m4, ok) = m3.clear(end2 - (USERSTACK + 1) * PGSIZE);
        assert(end2 - (USERSTACK + 1) * PGSIZE == n * PGSIZE);
        assert((n * PGSIZE) / (PGSIZE as int) == n);
        assert(n * PGSIZE < MAXVA);
        assert(ok is Ok);
        assert(m4.whole()) by {
            assert forall|p: int| #[trigger] m4.pages.contains_key(p) && p < UPAGES implies m4.pages[p].data.len()
                == PGSIZE by {
                assert(m3.pages.contains_key(p));
                if p != n && p != n + 1 {
                    assert(m2.pages.contains_key(p));
                }
            }
        }
        let base = end2 - USERSTACK * PGSIZE;
        assert(writable(m4, base, end2 as int)) by {
            assert forall|x: int| base <= x < end2 implies #[trigger] m4.can_write(x) by {
                assert(x / (PGSIZE as int) == n + 1);
                assert(m4.pages[n + 1] == m3.pages[n + 1]);
                assert(m3.pages[n + 1].flags == fl | crate::riscv::PTE_V);
            }
        }
        lemma_push_argv(m4, size, end2 as int, base, argv);
        if let Ok(sp) = r {
            lemma_writable(m4, m1, base, end2 as int);
            assert(m.only_within(m4, sp as int, end2 as int)) by {
                assert forall|x: int|
                    0 <= x && !(sp <= x < end2) && x / (PGSIZE as int) < UPAGES implies #[trigger] m.byte_kept(
                    m4,
                    x,
                ) by {
                    let p = x / (PGSIZE as int);
                    assert(m4.pages[p].data == m3.pages[p].data);
                    assert(m3.pages.contains_key(p) == m2.pages.contains_key(p) || p == n || p == n
                        + 1);
                    assert(p != n && p != n + 1 ==> m3.pages[p] == m2.pages[p]);
                    assert(m2.pages.contains_key(p) == m.pages.contains_key(p));
                    assert(!m.pages.contains_key(n) && !m.pages.contains_key(n + 1));
                }
            }
            m.lemma_within_trans(m4, m1, sp as int, end2 as int);
            assert(!m1.user(n)) by {
                assert(m4.pages.contains_key(n));
            }
            assert forall|p: int| 0 < p < n implies #[trigger] m1.pages.contains_key(p)
                == m.pages.contains_key(p) by {
                assert(m4.pages.contains_key(p) == m3.pages.contains_key(p));
                assert(m3.pages.contains_key(p) == m2.pages.contains_key(p));
            }
            assert forall|p: int| 0 < p < n && #[trigger] m.pages.contains_key(p) implies m1.pages[p].flags
                == m.pages[p].flags by {
                assert(m3.pages[p] == m2.pages[p]);
                assert(m3.pages.contains_key(p) == m2.pages.contains_key(p));
                assert(m4.pages.contains_key(p));
            }
            if m1.user(0) && n > 0 {
                assert(m4.pages.contains_key(0));
                assert(m3.pages.contains_key(0) == m2.pages.contains_key(0));
                assert(m3.pages[0] == m2.pages[0]);
            }
        }
    }
}

} // verus!
