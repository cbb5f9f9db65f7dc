//! The pages of a process lie within its size.
use vstd::prelude::*;
use crate::le::splice;
use crate::riscv::{round_down, round_up, MAXVA, PGSIZE, PTE_W};
use crate::vm::usermem::{UserMem, UserPage, UPAGES};
use crate::vm::{flag, leaf};

verus! {

impl UserMem {
    /// The process has no pages of its own beyond `size`.
    pub open spec fn within(self, size: int) -> bool {
        forall|n: int| #[trigger]
            self.pages.contains_key(n) && n < UPAGES ==> n < round_up(size) / (PGSIZE as int)
    }

    /// The page of the trap frame is there, and the entries of reserved pages are no tables.
    pub open spec fn reserved_ok(self) -> bool {
        &&& self.pages.contains_key(UPAGES as int)
        &&& forall|n: int|
            UPAGES <= n && #[trigger] self.pages.contains_key(n) ==> leaf(self.pages[n].flags)
    }

    /// A page that is added on demand lies within the size of the process.
    pub proof fn lemma_touch_within(self, size: int, va0: int)
        requires
            self.within(size),
            self.touch(size, va0) is Some,
        ensures
            (self.touch(size, va0)->0).0.within(size),
    {
        let n = va0 / (PGSIZE as int);
        let (m, r) = self.touch(size, va0)->0;
        assert forall|i: int| #[trigger] m.pages.contains_key(i) && i < UPAGES implies i < round_up(
            size,
        ) / (PGSIZE as int) by {
            if i != n {
                assert(self.pages.contains_key(i));
            }
        }
    }

    /// So does one that is added for writing.
    pub proof fn lemma_reach_within(self, size: int, va0: int)
        requires
            self.within(size),
            self.reach(size, va0) is Some,
        ensures
            (self.reach(size, va0)->0).0.within(size),
    {
        let n = va0 / (PGSIZE as int);
        let (m, r) = self.reach(size, va0)->0;
        assert forall|i: int| #[trigger] m.pages.contains_key(i) && i < UPAGES implies i < round_up(
            size,
        ) / (PGSIZE as int) by {
            if i != n {
                assert(self.pages.contains_key(i));
            }
        }
    }

    /// Copying from a process adds pages within its size only.
    pub proof fn lemma_copy_from_within(self, size: int, va: int, len: int, acc: Seq<u8>)
        requires
            self.within(size),
            self.copy_from(size, va, len, acc) is Some,
        ensures
            (self.copy_from(size, va, len, acc)->0).0.within(size),
        decreases len,
    {
        let va0 = round_down(va);
        let n = va0 / (PGSIZE as int);
        let k = Self::part(va, len);
        if len > 0 {
            self.lemma_touch_within(size, va0);
            let (m, r) = self.touch(size, va0)->0;
            if r is Ok {
                m.lemma_copy_from_within(
                    size,
                    va0 + PGSIZE,
                    len - k,
                    acc + m.pages[n].data.subrange(va - va0, va - va0 + k),
                );
            }
        }
    }

    /// Copying to a process adds pages within its size only.
    pub proof fn lemma_copy_to_within_size(self, size: int, va: int, src: Seq<u8>)
        requires
            self.within(size),
            self.copy_to(size, va, src) is Some,
        ensures
            (self.copy_to(size, va, src)->0).0.within(size),
        decreases src.len(),
    {
        let va0 = round_down(va);
        let n = va0 / (PGSIZE as int);
        let k = Self::part(va, src.len() as int);
        if src.len() > 0 && va0 <= MAXVA {
            self.lemma_reach_within(size, va0);
            let (m, r) = self.reach(size, va0)->0;
            if r is Ok && flag(m.pages[n].flags, PTE_W) {
                let page = m.pages[n];
                let m1 = UserMem {
                    pages: m.pages.insert(
                        n,
                        UserPage { data: splice(page.data, va - va0, src.take(k)), ..page },
                    ),
                    ..m
                };
                if !self.pages.contains_key(n) || !flag(self.pages[n].flags, crate::riscv::PTE_U) {
                    assert(va0 < size);
                    assert(n < round_up(size) / (PGSIZE as int));
                }
                assert(m.pages.contains_key(n)) by {
                    if self.user(n) {
                        assert(self.pages.contains_key(n));
                    }
                }
                assert(m1.within(size)) by {
                    assert forall|i: int| #[trigger] m1.pages.contains_key(i) && i < UPAGES implies i
                        < round_up(size) / (PGSIZE as int) by {
                        assert(m.pages.contains_key(i));
                    }
                }
                m1.lemma_copy_to_within_size(size, va0 + PGSIZE, src.skip(k));
            }
        }
    }
}

} // verus!
