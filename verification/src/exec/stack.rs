//! The stack that a program starts with: its arguments.
use vstd::prelude::*;
use crate::exec::load::lemma_same_keys;
use crate::exec::ExecError;
use crate::kalloc::{Kmem, KmemState};
use crate::le::{push_u64, splice, u64_bytes};
use crate::param::{MAXARG, USERSTACK};
use crate::riscv::{pg_round_up, round_down, round_up, MAXVA, PGSIZE, PTE_W};
use crate::vm::usermem::{UserMem, UserPage, UPAGES};
use crate::vm::uvm::{kmem_ok, lemma_apart_trans, Uvm};
use crate::vm::{flag, leaf, VA};

verus! {

/// The bytes of the numbers `hs`, one after the other.
pub open spec fn numbers(hs: Seq<u64>) -> Seq<u8>
    decreases hs.len(),
{
    if hs.len() == 0 {
        seq![]
    } else {
        numbers(hs.drop_last()) + u64_bytes(hs.last())
    }
}

/// The stack pointer down to a multiple of 16.
pub open spec fn align(sp: int) -> int {
    sp - sp % 16
}

impl UserMem {
    /// Copying the arguments from `i` on below `sp`, each with a zero byte behind it, but not
    /// below `base`. Gives the stack pointer then, and the addresses after `at`. `None` where the
    /// stack pointer would get below zero. `size` is the size of the process that runs.
    pub open spec fn push_args(
        self,
        size: int,
        sp: int,
        base: int,
        argv: Seq<Seq<u8>>,
        i: int,
        at: Seq<u64>,
    ) -> Option<(UserMem, Result<(int, Seq<u64>), ExecError>)>
        decreases argv.len() - i,
    {
        let n = argv[i].len();
        let to = align(sp - n - 1);
        if i >= argv.len() {
            Some((self, Ok((sp, at))))
        } else if i >= MAXARG {
            Some((self, Err(ExecError::Memory)))
        } else if sp < n + 1 {
            None
        } else if to < base {
            Some((self, Err(ExecError::Memory)))
        } else {
            match self.copy_to(size, to, argv[i]) {
                None => None,
                Some((m, Err(_))) => Some((m, Err(ExecError::Memory))),
                Some((m, Ok(()))) => match m.put_byte(size, to + n, 0) {
                    None => None,
                    Some((m, Err(_))) => Some((m, Err(ExecError::Memory))),
                    Some((m, Ok(()))) => m.push_args(
                        size,
                        to,
                        base,
                        argv,
                        i + 1,
                        at.push(to as u64),
                    ),
                },
            }
        }
    }

    /// Copying the arguments and then the array of their addresses. Gives the stack pointer.
    /// `None` where there are exactly as many arguments as there can be addresses, which leaves no
    /// room for the end of the array.
    pub open spec fn push_argv(self, size: int, sp: int, base: int, argv: Seq<Seq<u8>>) -> Option<
        (UserMem, Result<u64, ExecError>),
    > {
        match self.push_args(size, sp, base, argv, 0, seq![]) {
            None => None,
            Some((m, Err(e))) => Some((m, Err(e))),
            Some((m, Ok((sp, at)))) => {
                let to = align(sp - (argv.len() + 1) * 8);
                if argv.len() >= MAXARG || sp < (argv.len() + 1) * 8 {
                    None
                } else if to < base {
                    Some((m, Err(ExecError::Memory)))
                } else {
                    match m.copy_to(size, to, numbers(at.push(0))) {
                        None => None,
                        Some((m, Err(_))) => Some((m, Err(ExecError::Memory))),
                        Some((m, Ok(()))) => Some((m, Ok(to as u64))),
                    }
                }
            },
        }
    }

    /// Giving a program that reaches up to `end` a stack with its arguments: page 0 cannot be read
    /// or written any more, and below the stack is a page that user code cannot use. Gives the
    /// size then and the stack pointer.
    pub open spec fn with_stack(self, size: int, end: u64, argv: Seq<Seq<u8>>) -> Option<
        (UserMem, u64, Result<u64, ExecError>),
    > {
        let end1 = round_up(end as int);
        match self.revoke(0) {
            None => None,
            Some((m, _)) => if end1 + 4 * PGSIZE > u64::MAX {
                None
            } else {
                match m.allocate(end1, end1 + (USERSTACK + 1) * PGSIZE, PTE_W) {
                    None => None,
                    Some((m, Err(_))) => Some((m, end1 as u64, Err(ExecError::Alloc))),
                    Some((m, Ok(end2))) => match m.clear(end2 - (USERSTACK + 1) * PGSIZE) {
                        (m, Err(_)) => Some((m, end2, Err(ExecError::Memory))),
                        (m, Ok(())) => match m.push_argv(
                            size,
                            end2 as int,
                            end2 - USERSTACK * PGSIZE,
                            argv,
                        ) {
                            None => None,
                            Some((m, r)) => Some((m, end2, r)),
                        },
                    },
                }
            },
        }
    }
}

/// The arguments as sequences of bytes.
pub open spec fn views(argv: Seq<Vec<u8>>) -> Seq<Seq<u8>> {
    argv.map_values(|v: Vec<u8>| v@)
}

impl UserMem {
    /// Copying to addresses below `end` adds no pages beyond it.
    pub proof fn lemma_copy_to_within(self, size: int, va: int, src: Seq<u8>, end: int)
        requires
            0 <= va,
            va + src.len() <= end,
            self.within(end),
            self.copy_to(size, va, src) is Some,
        ensures
            (self.copy_to(size, va, src)->0).0.within(end),
        decreases src.len(),
    {
        let va0 = round_down(va);
        let n = va0 / (PGSIZE as int);
        let k = Self::part(va, src.len() as int);
        if src.len() > 0 && va0 <= MAXVA {
            assert(n < round_up(end) / (PGSIZE as int));
            let (m, r) = self.reach(size, va0)->0;
            assert(m.within(end)) by {
                assert forall|i: int| #[trigger] m.pages.contains_key(i) && i < UPAGES implies i
                    < round_up(end) / (PGSIZE as int) by {
                    if i != n {
                        assert(self.pages.contains_key(i));
                    }
                }
            }
            if r is Ok && flag(m.pages[n].flags, PTE_W) {
                let page = m.pages[n];
                let m1 = UserMem {
                    pages: m.pages.insert(
                        n,
                        UserPage { data: splice(page.data, va - va0, src.take(k)), ..page },
                    ),
                    ..m
                };
                assert(m1.within(end)) by {
                    assert forall|i: int| #[trigger] m1.pages.contains_key(i) && i < UPAGES implies i
                        < round_up(end) / (PGSIZE as int) by {
                        if i != n {
                            assert(m.pages.contains_key(i));
                        }
                    }
                }
                if src.len() > k {
                    m1.lemma_copy_to_within(size, va0 + PGSIZE, src.skip(k), end);
                }
            }
        }
    }
}

/// Reserved pages stay as they are when their entries do.
pub(crate) proof fn lemma_reserved_kept(u: Uvm, k0: KmemState, v: Uvm, k1: KmemState)
    requires
        u.mem(k0).reserved_ok(),
        forall|m: int| UPAGES <= m ==> #[trigger] v.pte(k1, m) == u.pte(k0, m),
    ensures
        v.mem(k1).reserved_ok(),
{
    let a = u.mem(k0);
    let b = v.mem(k1);
    assert(v.pte(k1, UPAGES as int) == u.pte(k0, UPAGES as int));
    assert(a.pages.contains_key(UPAGES as int));
    assert forall|n: int| UPAGES <= n && #[trigger] b.pages.contains_key(n) implies leaf(
        b.pages[n].flags,
    ) by {
        assert(v.pte(k1, n) == u.pte(k0, n));
        assert(a.pages.contains_key(n));
    }
}

/// Copies `src` to the stack of a new program. Returns whether that could be done.
fn push_bytes(uvm: &mut Uvm, kmem: &mut Kmem, size: u64, src: &[u8], to: u64, end: u64) -> (r: bool)
    requires
        old(kmem).wf(),
        old(uvm).wf(old(kmem)@),
        old(uvm).mem(old(kmem)@).within(end as int),
        old(uvm).mem(old(kmem)@).reserved_ok(),
        size <= u64::MAX - 2 * PGSIZE,
        to + src@.len() <= end,
        old(uvm).mem(old(kmem)@).copy_to(size as int, to as int, src@) is Some,
    ensures
        final(kmem).wf(),
        final(uvm).wf(final(kmem)@),
        final(uvm).mem(final(kmem)@).within(end as int),
        final(uvm).mem(final(kmem)@).reserved_ok(),
        old(uvm).apart(old(kmem)@, *final(uvm), final(kmem)@),
        old(uvm).same_reserved(old(kmem)@, *final(uvm), final(kmem)@),
        ({
            let (m, result) = old(uvm).mem(old(kmem)@).copy_to(size as int, to as int, src@)->0;
            final(uvm).mem(final(kmem)@) == m && r == (result is Ok)
        }),
{
    let ghost u0 = *uvm;
    let ghost k0 = kmem@;
    proof {
        u0.mem(k0).lemma_copy_to_within(size as int, to as int, src@, end as int);
    }
    let r = uvm.copy_to(kmem, size, src, VA(to));
    proof {
        lemma_reserved_kept(u0, k0, *uvm, kmem@);
    }
    r.is_ok()
}

/// Copies the arguments below `end`. Returns the stack pointer, and the addresses.
#[verifier::rlimit(40)]
fn push_args(
    uvm: &mut Uvm,
    kmem: &mut Kmem,
    size: u64,
    end: u64,
    base: u64,
    argv: &Vec<Vec<u8>>,
) -> (r: Result<(u64, Vec<u64>), ExecError>)
    requires
        old(kmem).wf(),
        old(uvm).wf(old(kmem)@),
        old(uvm).mem(old(kmem)@).within(end as int),
        old(uvm).mem(old(kmem)@).reserved_ok(),
        size <= u64::MAX - 2 * PGSIZE,
        base <= end,
        old(uvm).mem(old(kmem)@).push_args(
            size as int,
            end as int,
            base as int,
            views(argv@),
            0,
            seq![],
        ) is Some,
    ensures
        final(kmem).wf(),
        final(uvm).wf(final(kmem)@),
        final(uvm).mem(final(kmem)@).within(end as int),
        final(uvm).mem(final(kmem)@).reserved_ok(),
        old(uvm).apart(old(kmem)@, *final(uvm), final(kmem)@),
        old(uvm).same_reserved(old(kmem)@, *final(uvm), final(kmem)@),
        ({
            let (m, result) = old(uvm).mem(old(kmem)@).push_args(
                size as int,
                end as int,
                base as int,
                views(argv@),
                0,
                seq![],
            )->0;
            &&& final(uvm).mem(final(kmem)@) == m
            &&& match result {
                Ok((sp, at)) => {
                    &&& r is Ok
                    &&& r->Ok_0.0 == sp
                    &&& r->Ok_0.1@ == at
                    &&& base <= sp <= end
                    &&& at.len() == argv@.len()
                    &&& at.len() <= MAXARG
                },
                Err(e) => r is Err && r->Err_0 == e,
            }
        }),
{
    let ghost u0 = *uvm;
    let ghost k0 = kmem@;
    let ghost vs = views(argv@);
    let ghost want = uvm.mem(k0).push_args(
        size as int,
        end as int,
        base as int,
        vs,
        0,
        seq![],
    );
    proof {
        kmem.lemma_wf();
        uvm.lemma_refl(k0);
        uvm.lemma_owns(k0);
    }
    let mut sp: u64 = end;
    let mut at: Vec<u64> = Vec::new();
    assert(at@ =~= seq![]);
    let mut i: usize = 0;
    while i < argv.len()
        invariant
            i <= argv@.len(),
            i <= MAXARG,
            at@.len() == i,
            vs == views(argv@),
            kmem.wf(),
            uvm.wf(kmem@),
            uvm.mem(kmem@).within(end as int),
            uvm.mem(kmem@).reserved_ok(),
            size <= u64::MAX - 2 * PGSIZE,
            base <= sp <= end,
            u0 == *old(uvm),
            k0 == old(kmem)@,
            kmem_ok(k0),
            u0.wf(k0),
            forall|p: u64| #[trigger] u0.owns(k0, p) ==> k0.frames.contains_key(p),
            u0.apart(k0, *uvm, kmem@),
            u0.same_reserved(k0, *uvm, kmem@),
            want is Some,
            want == u0.mem(k0).push_args(size as int, end as int, base as int, vs, 0, seq![]),
            want == uvm.mem(kmem@).push_args(
                size as int,
                sp as int,
                base as int,
                vs,
                i as int,
                at@,
            ),
        decreases argv@.len() - i,
    {
        if i >= MAXARG {
            return Err(ExecError::Memory);
        }
        let n = argv[i].len();
        assert(vs[i as int] == argv@[i as int]@);
        sp = sp - (n as u64 + 1);  // +1 for null terminator
        sp = sp - sp % 16;  // riscv sp must be 16-byte aligned
        if sp < base {
            return Err(ExecError::Memory);
        }
        let ghost u1 = *uvm;
        let ghost k1 = kmem@;
        proof {
            kmem.lemma_wf();
            uvm.lemma_owns(k1);
        }
        let copied = push_bytes(uvm, kmem, size, argv[i].as_slice(), sp, end);
        let ghost u2 = *uvm;
        let ghost k2 = kmem@;
        proof {
            kmem.lemma_wf();
            lemma_apart_trans(u0, k0, u1, k1, u2, k2);
        }
        if !copied {
            return Err(ExecError::Memory);
        }
        proof {
            reveal(UserMem::put_byte);
        }
        let zero: [u8; 1] = [0u8];
        assert(zero@ =~= seq![0u8]);
        let ended = push_bytes(uvm, kmem, size, &zero, sp + n as u64, end);
        proof {
            lemma_apart_trans(u0, k0, u2, k2, *uvm, kmem@);
        }
        if !ended {
            return Err(ExecError::Memory);
        }
        // save the address of the current argument
        at.push(sp);
        i += 1;
    }
    Ok((sp, at))
}

/// The bytes of the addresses.
fn encode(at: &Vec<u64>) -> (r: Vec<u8>)
    ensures
        r@ == numbers(at@),
        r@.len() == 8 * at@.len(),
{
    let mut bytes: Vec<u8> = Vec::new();
    let mut i: usize = 0;
    assert(at@.take(0) =~= seq![]);
    assert(bytes@ =~= numbers(at@.take(0)));
    while i < at.len()
        invariant
            i <= at@.len(),
            bytes@ == numbers(at@.take(i as int)),
            bytes@.len() == 8 * i,
        decreases at@.len() - i,
    {
        push_u64(&mut bytes, at[i]);
        i += 1;
        assert(at@.take(i as int).drop_last() =~= at@.take(i - 1));
    }
    assert(at@.take(i as int) =~= at@);
    bytes
}

/// Gives a new program that reaches up to `end` a stack with its arguments. Returns the size then,
/// and the stack pointer. `size` is the size of the process that runs.
#[verifier::rlimit(40)]
pub(crate) fn build_stack(uvm: &mut Uvm, kmem: &mut Kmem, size: u64, end: u64, argv: &Vec<Vec<u8>>) -> (r: (
    u64,
    Result<u64, ExecError>,
))
    requires
        old(kmem).wf(),
        old(uvm).wf(old(kmem)@),
        old(uvm).mem(old(kmem)@).within(end as int),
        old(uvm).mem(old(kmem)@).reserved_ok(),
        size <= u64::MAX - 2 * PGSIZE,
        old(uvm).mem(old(kmem)@).with_stack(size as int, end, views(argv@)) is Some,
    ensures
        final(kmem).wf(),
        final(uvm).wf(final(kmem)@),
        final(uvm).mem(final(kmem)@).within(r.0 as int),
        final(uvm).mem(final(kmem)@).reserved_ok(),
        r.0 <= u64::MAX - 2 * PGSIZE,
        old(uvm).apart(old(kmem)@, *final(uvm), final(kmem)@),
        old(uvm).same_reserved(old(kmem)@, *final(uvm), final(kmem)@),
        Some((final(uvm).mem(final(kmem)@), r.0, r.1)) == old(uvm).mem(old(kmem)@).with_stack(
            size as int,
            end,
            views(argv@),
        ),
        r.1 is Ok ==> argv@.len() < MAXARG,
{
    let ghost u0 = *uvm;
    let ghost k0 = kmem@;
    proof {
        kmem.lemma_wf();
        uvm.lemma_owns(k0);
    }
    // Page 0 may hold `_start` when the user linker places .text at 0x0.
    // Keep it executable, but revoke read/write so a null dereference faults.
    let _ = uvm.revoke_rw(kmem, VA(0));
    let ghost u1 = *uvm;
    let ghost k1 = kmem@;
    // allocate some pages at the next page boundary.
    // make the first inaccessible as a stack guard.
    // use the rest as the user stack.
    let end1 = pg_round_up(end);
    proof {
        kmem.lemma_wf();
        assert(u1.mem(k1).pages.dom() =~= u0.mem(k0).pages.dom());
        lemma_same_keys(u0, k0, u1, k1, end as int);
        assert(round_up(end1 as int) == end1);
        assert(u1.mem(k1).within(end1 as int));
        u1.mem(k1).lemma_allocate(end1 as int, end1 + 2 * PGSIZE, PTE_W);
        assert(4u64 < 0x400) by (bit_vector);
    }
    let end2 = match uvm.allocate(kmem, end1, end1 + (USERSTACK as u64 + 1) * PGSIZE, PTE_W) {
        Ok(end2) => end2,
        Err(_) => {
            proof {
                lemma_apart_trans(u0, k0, u1, k1, *uvm, kmem@);
            }
            return (end1, Err(ExecError::Alloc));
        },
    };
    let ghost u2 = *uvm;
    let ghost k2 = kmem@;
    proof {
        kmem.lemma_wf();
        lemma_apart_trans(u0, k0, u1, k1, u2, k2);
    }
    let guard = end2 - (USERSTACK as u64 + 1) * PGSIZE;
    let cleared = uvm.clear(kmem, VA(guard));
    let ghost u3 = *uvm;
    let ghost k3 = kmem@;
    proof {
        kmem.lemma_wf();
        lemma_apart_trans(u0, k0, u2, k2, u3, k3);
        assert(u3.mem(k3).pages.dom() =~= u2.mem(k2).pages.dom());
        lemma_guard(u1.mem(k1), end1 as int, PTE_W);
        lemma_same_keys(u2, k2, u3, k3, end2 as int);
    }
    if cleared.is_err() {
        return (end2, Err(ExecError::Memory));
    }
    let base = end2 - USERSTACK as u64 * PGSIZE;
    let (sp, mut at) = match push_args(uvm, kmem, size, end2, base, argv) {
        Ok(pushed) => pushed,
        Err(e) => {
            proof {
                lemma_apart_trans(u0, k0, u3, k3, *uvm, kmem@);
            }
            return (end2, Err(e));
        },
    };
    let ghost u4 = *uvm;
    let ghost k4 = kmem@;
    proof {
        kmem.lemma_wf();
        lemma_apart_trans(u0, k0, u3, k3, u4, k4);
    }
    at.push(0);
    // copy the pointer array to the user
    let to = sp - at.len() as u64 * 8;
    let to = to - to % 16;
    if to < base {
        return (end2, Err(ExecError::Memory));
    }
    let bytes = encode(&at);
    let copied = push_bytes(uvm, kmem, size, &bytes, to, end2);
    proof {
        lemma_apart_trans(u0, k0, u4, k4, *uvm, kmem@);
    }
    if !copied {
        return (end2, Err(ExecError::Memory));
    }
    (end2, Ok(to))
}

/// The page below a new stack is one of the process's own.
proof fn lemma_guard(m: UserMem, end: int, flags: u64)
    requires
        0 <= end,
        round_up(end) == end,
        m.allocate(end, end + 2 * PGSIZE, flags) is Some,
        (m.allocate(end, end + 2 * PGSIZE, flags)->0).1 is Ok,
    ensures
        end / (PGSIZE as int) < UPAGES,
{
}

} // verus!
