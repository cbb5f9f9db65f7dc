//! Loading programs into memory, and the permissions of pages.
use vstd::prelude::*;
use crate::kalloc::Kmem;
use crate::le::splice;
use crate::riscv::{flags_of, page_of, plain, MAXVA, PGSIZE, PTE_R, PTE_V, PTE_W};
use crate::vm::pagetable::tab_of;
use crate::vm::usermem::{UserMem, UserPage, MAXPAGES, UPAGES};
use crate::vm::uvm::{lemma_beyond, lemma_entry_page, lemma_flags, lemma_mem, lemma_only, Uvm};
use crate::vm::{flag, leaf, VmError, VA};

verus! {

impl UserMem {
    /// Page `n` with other flags.
    pub open spec fn with_flags(self, n: int, flags: u64) -> UserMem {
        UserMem { pages: self.pages.insert(n, UserPage { flags, ..self.pages[n] }), ..self }
    }

    /// Changing the write permission of the page at `va`. `None` where nothing would be permitted.
    pub open spec fn set_writeable(self, va: int, writable: bool) -> Option<
        (UserMem, Result<(), VmError>),
    > {
        let n = va / (PGSIZE as int);
        let flags = if writable {
            self.pages[n].flags | PTE_W
        } else {
            self.pages[n].flags & !PTE_W
        };
        if va >= MAXVA || va % (PGSIZE as int) != 0 {
            Some((self, Err(VmError::InvalidAddress)))
        } else if !self.shape.tabs.contains(tab_of(va)) {
            Some((self, Err(VmError::InvalidPage)))
        } else if !self.user(n) {
            Some((self, Err(VmError::InvalidPte)))
        } else if n >= UPAGES || !leaf(flags) {
            None
        } else {
            Some((self.with_flags(n, flags), Ok(())))
        }
    }

    /// Taking read and write permission from the page at `va`. `None` where nothing would be
    /// permitted.
    pub open spec fn revoke(self, va: int) -> Option<(UserMem, Result<(), VmError>)> {
        let n = va / (PGSIZE as int);
        let flags = self.pages[n].flags & !(PTE_R | PTE_W);
        if va >= MAXVA {
            Some((self, Err(VmError::InvalidAddress)))
        } else if !self.shape.tabs.contains(tab_of(va)) {
            Some((self, Err(VmError::InvalidPage)))
        } else if !self.pages.contains_key(n) {
            Some((self, Err(VmError::InvalidPte)))
        } else if n >= UPAGES || !leaf(flags) {
            None
        } else {
            Some((self.with_flags(n, flags), Ok(())))
        }
    }

    /// Whether the page at `va` is there for user code, and what is wrong if not.
    pub open spec fn check(self, va: int) -> Result<(), VmError> {
        if va >= MAXVA {
            Err(VmError::InvalidAddress)
        } else if !self.shape.tabs.contains(tab_of(va)) {
            Err(VmError::InvalidPage)
        } else if !self.user(va / (PGSIZE as int)) {
            Err(VmError::InvalidPte)
        } else {
            Ok(())
        }
    }

    /// Loading `bytes` to the start of page `n`.
    pub open spec fn load(self, n: int, bytes: Seq<u8>) -> UserMem {
        UserMem {
            pages: self.pages.insert(
                n,
                UserPage { data: splice(self.pages[n].data, 0, bytes), ..self.pages[n] },
            ),
            ..self
        }
    }
}

impl Uvm {
    /// Changes the write permission of the user page at `va`.
    pub fn set_page_writeable(&mut self, kmem: &mut Kmem, va: VA, writable: bool) -> (r: Result<
        (),
        VmError,
    >)
        requires
            old(kmem).wf(),
            old(self).wf(old(kmem)@),
            old(self).mem(old(kmem)@).set_writeable(va.0 as int, writable) is Some,
        ensures
            final(kmem).wf(),
            *final(self) == *old(self),
            final(self).wf(final(kmem)@),
            Some((final(self).mem(final(kmem)@), r)) == old(self).mem(
                old(kmem)@,
            ).set_writeable(va.0 as int, writable),
            !writable ==> old(self).apart(old(kmem)@, *final(self), final(kmem)@),
            old(self).tables_only(old(kmem)@, final(kmem)@),
            forall|p: u64| #[trigger]
                final(self).owns(final(kmem)@, p) == old(self).owns(old(kmem)@, p),
            forall|m: int|
                0 <= m && (m != va.0 as int / (PGSIZE as int) || r is Err) ==> #[trigger] final(self).pte(
                    final(kmem)@,
                    m,
                ) == old(self).pte(old(kmem)@, m),
            r is Ok ==> ({
                let n = va.0 as int / (PGSIZE as int);
                let entry = old(self).pte(old(kmem)@, n);
                &&& n < UPAGES
                &&& final(self).pte(final(kmem)@, n) == if writable {
                    entry | PTE_W
                } else {
                    entry & !PTE_W
                }
            }),
    {
        let ghost k0 = kmem@;
        let ghost n = va.0 as int / (PGSIZE as int);
        proof {
            kmem.lemma_wf();
            self.lemma_refl(k0);
            lemma_entry_page(self.0, k0, va.0 as int);
            if n < MAXPAGES {
                lemma_mem(*self, k0, n);
                lemma_flags(self.pte(k0, n));
            }
        }
        let r = self.0.set_page_writeable(kmem, va, writable);
        proof {
            if r is Ok {
                let x = self.pte(k0, n);
                let new = if writable {
                    x | PTE_W
                } else {
                    x & !PTE_W
                };
                lemma_only(*self, k0, kmem@, va.0, new);
                lemma_w(x);
                lemma_flags(new);
                assert(self.maps(k0, n));
                self.lemma_retag(k0, kmem@, n, new);
            }
        }
        r
    }

    /// Strips user read/write from the page at `va`, leaving execute intact.
    pub fn revoke_rw(&mut self, kmem: &mut Kmem, va: VA) -> (r: Result<(), VmError>)
        requires
            old(kmem).wf(),
            old(self).wf(old(kmem)@),
            old(self).mem(old(kmem)@).revoke(va.0 as int) is Some,
        ensures
            final(kmem).wf(),
            *final(self) == *old(self),
            final(self).wf(final(kmem)@),
            Some((final(self).mem(final(kmem)@), r)) == old(self).mem(old(kmem)@).revoke(
                va.0 as int,
            ),
            old(self).apart(old(kmem)@, *final(self), final(kmem)@),
            forall|m: int|
                0 <= m && (m != va.0 as int / (PGSIZE as int) || r is Err) ==> #[trigger] final(self).pte(
                    final(kmem)@,
                    m,
                ) == old(self).pte(old(kmem)@, m),
            r is Ok ==> ({
                let n = va.0 as int / (PGSIZE as int);
                let entry = old(self).pte(old(kmem)@, n);
                &&& n < UPAGES
                &&& final(self).pte(final(kmem)@, n) == entry & !(PTE_R | PTE_W)
            }),
    {
        let ghost k0 = kmem@;
        let ghost n = va.0 as int / (PGSIZE as int);
        proof {
            kmem.lemma_wf();
            self.lemma_refl(k0);
            lemma_entry_page(self.0, k0, va.0 as int);
            if n < MAXPAGES {
                lemma_mem(*self, k0, n);
                lemma_flags(self.pte(k0, n));
            }
        }
        let r = self.0.revoke_rw(kmem, va);
        proof {
            if r is Ok {
                let x = self.pte(k0, n);
                let new = x & !(PTE_R | PTE_W);
                lemma_only(*self, k0, kmem@, va.0, new);
                lemma_w(x);
                lemma_flags(new);
                assert(self.maps(k0, n));
                self.lemma_retag(k0, kmem@, n, new);
            }
        }
        r
    }

    /// Whether the page at `va` is there for user code.
    pub(crate) fn check_page(&self, kmem: &Kmem, va: VA) -> (r: Result<(), VmError>)
        requires
            kmem.wf(),
            self.wf(kmem@),
        ensures
            r == self.mem(kmem@).check(va.0 as int),
    {
        let ghost n = va.0 as int / (PGSIZE as int);
        proof {
            lemma_entry_page(self.0, kmem@, va.0 as int);
            if n < MAXPAGES {
                lemma_mem(*self, kmem@, n);
            }
            lemma_flags(self.pte(kmem@, n));
        }
        match self.0.walk_addr(kmem, va) {
            Ok(_) => Ok(()),
            Err(e) => Err(e),
        }
    }

    /// Writes `bytes` to the start of the user page at `va`, which no other process has.
    pub(crate) fn load_page(&mut self, kmem: &mut Kmem, va: VA, bytes: &[u8]) -> (r: Result<
        (),
        VmError,
    >)
        requires
            old(kmem).wf(),
            old(self).wf(old(kmem)@),
            va.0 % PGSIZE == 0,
            bytes@.len() <= PGSIZE,
            ({
                let n = va.0 as int / (PGSIZE as int);
                old(self).mem(old(kmem)@).check(va.0 as int) is Ok ==> n < UPAGES && old(self).mem(
                    old(kmem)@,
                ).pages[n].refs == 1
            }),
        ensures
            final(kmem).wf(),
            *final(self) == *old(self),
            final(self).wf(final(kmem)@),
            old(self).apart(old(kmem)@, *final(self), final(kmem)@),
            ({
                let n = va.0 as int / (PGSIZE as int);
                let m = old(self).mem(old(kmem)@);
                &&& r == m.check(va.0 as int)
                &&& final(self).mem(final(kmem)@) == (if r is Ok {
                    m.load(n, bytes@)
                } else {
                    m
                })
            }),
            forall|m: int| #[trigger]
                final(self).pte(final(kmem)@, m) == old(self).pte(old(kmem)@, m),
    {
        let ghost k0 = kmem@;
        let ghost n = va.0 as int / (PGSIZE as int);
        proof {
            kmem.lemma_wf();
            self.lemma_refl(k0);
            self.lemma_owns(k0);
            assert(n * PGSIZE == va.0);
            if n < MAXPAGES {
                lemma_mem(*self, k0, n);
            } else {
                lemma_beyond(self.0, k0, va.0 as int);
            }
            lemma_flags(self.pte(k0, n));
            crate::vm::lemma_zero_invalid();
        }
        match self.0.walk_addr(kmem, va) {
            Ok(pa) => {
                assert(self.maps(k0, n));
                assert(self.page_ok(k0, n));
                kmem.write_page(pa.0, 0, bytes, 0, bytes.len());
                proof {
                    assert(bytes@.subrange(0, bytes@.len() as int) =~= bytes@);
                    self.lemma_poke(k0, kmem@, n, splice(k0.page(pa.0), 0, bytes@));
                }
                Ok(())
            },
            Err(e) => Err(e),
        }
    }
}

/// Changing the write permission or taking permissions leaves the rest of an entry.
proof fn lemma_w(x: u64)
    ensures
        page_of(x | PTE_W) == page_of(x),
        flags_of(x | PTE_W) == flags_of(x) | PTE_W,
        flag(x | PTE_W, PTE_V) == flag(x, PTE_V),
        page_of(x & !PTE_W) == page_of(x),
        flags_of(x & !PTE_W) == flags_of(x) & !PTE_W,
        flag(x & !PTE_W, PTE_V) == flag(x, PTE_V),
        !flag(x & !PTE_W, PTE_W),
        page_of(x & !(PTE_R | PTE_W)) == page_of(x),
        flags_of(x & !(PTE_R | PTE_W)) == flags_of(x) & !(PTE_R | PTE_W),
        flag(x & !(PTE_R | PTE_W), PTE_V) == flag(x, PTE_V),
        !flag(x & !(PTE_R | PTE_W), PTE_W),
        plain(x) ==> plain(x | PTE_W) && plain(x & !PTE_W) && plain(x & !(PTE_R | PTE_W)),
{
    assert(((x | 4) >> 10) << 12 == (x >> 10) << 12 && (x | 4) & 0x3FF == (x & 0x3FF) | 4 && (x | 4)
        & 1 == x & 1 && ((x & !4u64) >> 10) << 12 == (x >> 10) << 12 && (x & !4u64) & 0x3FF == (x
        & 0x3FF) & !4u64 && (x & !4u64) & 1 == x & 1 && (x & !4u64) & 4 == 0 && ((x & !(2u64
        | 4u64)) >> 10) << 12 == (x >> 10) << 12 && (x & !(2u64 | 4u64)) & 0x3FF == (x & 0x3FF)
        & !(2u64 | 4u64) && (x & !(2u64 | 4u64)) & 1 == x & 1 && (x & !(2u64 | 4u64)) & 4 == 0
        && (x < 0x4000_0000_0000_0000 ==> (x | 4) < 0x4000_0000_0000_0000) && (x & !4u64) <= x && (x
        & !(2u64 | 4u64)) <= x)
        by (bit_vector);
}

} // verus!
