//! The memory of a process, as the process sees it.
use vstd::prelude::*;
use crate::kalloc::zero_page;
use crate::le::splice;
use crate::riscv::{round_down, round_up, MAXVA, PGSIZE, PTE_COW, PTE_R, PTE_U, PTE_V, PTE_W};
use crate::vm::pagetable::Shape;
use crate::vm::{flag, leaf, VmError};

verus! {

/// The number of pages below the trap frame, which are for the process to use.
pub const UPAGES: u64 = 0x3ff_fffe;

/// The number of pages that can have an entry.
pub const MAXPAGES: u64 = 0x400_0000;

/// A page of a process.
#[verifier::ext_equal]
pub struct UserPage {
    /// The flags of its entry.
    pub flags: u64,
    /// Its bytes.
    pub data: Seq<u8>,
    /// How many processes refer to its frame.
    pub refs: u8,
}

/// The memory of a process.
#[verifier::ext_equal]
pub struct UserMem {
    /// The valid pages, by page number.
    pub pages: Map<int, UserPage>,
    /// The tables that exist.
    pub shape: Shape,
    /// The frames that are left to allocate.
    pub left: nat,
}

impl UserMem {
    /// Page `n` is there and user code can use it.
    pub open spec fn user(self, n: int) -> bool {
        self.pages.contains_key(n) && flag(self.pages[n].flags, PTE_U)
    }

    /// Removing page `n` if it is there; a frame that no other process refers to is free again.
    pub open spec fn drop_page(self, n: int) -> UserMem {
        if self.pages.contains_key(n) {
            UserMem {
                pages: self.pages.remove(n),
                left: if self.pages[n].refs == 1 {
                    self.left + 1
                } else {
                    self.left
                },
                ..self
            }
        } else {
            self
        }
    }

    /// Removing the pages from `n` on, `count` of them.
    pub open spec fn unmap(self, n: int, count: nat) -> UserMem
        decreases count,
    {
        if count == 0 {
            self
        } else {
            self.drop_page(n).unmap(n + 1, (count - 1) as nat)
        }
    }

    /// Adding a zeroed page `n` with the given flags, which takes a frame and those for missing
    /// tables. `None` where `n` is reserved.
    pub open spec fn add_page(self, n: int, flags: u64) -> Option<(UserMem, Result<(), VmError>)> {
        if UPAGES <= n < MAXPAGES {
            None
        } else if self.left == 0 {
            Some((self, Err(VmError::Alloc)))
        } else if n >= MAXPAGES {
            Some((self, Err(VmError::InvalidAddress)))
        } else {
            let (shape, f, ok) = self.shape.grow(n * PGSIZE, (self.left - 1) as nat);
            if ok {
                Some(
                    (
                        UserMem {
                            pages: self.pages.insert(
                                n,
                                UserPage { flags: flags | PTE_V, data: zero_page(), refs: 1 },
                            ),
                            shape,
                            left: f,
                        },
                        Ok(()),
                    ),
                )
            } else {
                Some((UserMem { shape, left: f + 1, ..self }, Err(VmError::Alloc)))
            }
        }
    }

    /// Adding zeroed pages from `n` up to `end`; on an error those from `start` on are removed
    /// again. `None` where a page is reserved or there already.
    pub open spec fn add_pages(self, start: int, n: int, end: int, flags: u64) -> Option<
        (UserMem, Result<(), VmError>),
    >
        decreases end - n,
    {
        if n >= end {
            Some((self, Ok(())))
        } else if self.pages.contains_key(n) {
            None
        } else {
            match self.add_page(n, flags) {
                None => None,
                Some((m, Err(e))) => Some((m.unmap(start, (n - start) as nat), Err(e))),
                Some((m, Ok(()))) => m.add_pages(start, n + 1, end, flags),
            }
        }
    }

    /// Growing the process from `old_size` to `new_size`.
    pub open spec fn allocate(self, old_size: int, new_size: int, xperm: u64) -> Option<
        (UserMem, Result<u64, VmError>),
    > {
        if new_size < old_size {
            Some((self, Ok(old_size as u64)))
        } else {
            let start = round_up(old_size) / (PGSIZE as int);
            match self.add_pages(
                start,
                start,
                round_up(new_size) / (PGSIZE as int),
                PTE_R | PTE_U | xperm,
            ) {
                None => None,
                Some((m, Err(e))) => Some((m, Err(e))),
                Some((m, Ok(()))) => Some((m, Ok(new_size as u64))),
            }
        }
    }

    /// Shrinking the process from `old_size` to `new_size`.
    pub open spec fn deallocate(self, old_size: int, new_size: int) -> UserMem {
        let first = round_up(new_size) / (PGSIZE as int);
        let end = round_up(old_size) / (PGSIZE as int);
        if new_size >= old_size || first >= end {
            self
        } else {
            self.unmap(first, (end - first) as nat)
        }
    }

    /// No reserved page is there in what shrinking from `old_size` to `new_size` takes away.
    pub open spec fn can_deallocate(self, old_size: int, new_size: int) -> bool {
        new_size < old_size ==> forall|n: int|
            UPAGES <= n && round_up(new_size) / (PGSIZE as int) <= n < round_up(old_size) / (
            PGSIZE as int) ==> !#[trigger] self.pages.contains_key(n)
    }

    /// A page fault at `va` in a process of the given size: a page that was not there yet is added,
    /// a copy-on-write page gets a frame of its own. `None` where the page is reserved.
    pub open spec fn fault(self, size: int, va: int) -> Option<(UserMem, Result<(), VmError>)> {
        let n = va / (PGSIZE as int);
        if va < PGSIZE || va >= size {
            Some((self, Err(VmError::InvalidAddress)))
        } else if self.pages.contains_key(n) {
            let page = self.pages[n];
            if !flag(page.flags, PTE_COW) {
                Some((self, Err(VmError::InvalidAddress)))
            } else if n >= UPAGES {
                None
            } else if self.left == 0 {
                Some((self, Err(VmError::Alloc)))
            } else {
                Some(
                    (
                        UserMem {
                            pages: self.pages.insert(
                                n,
                                UserPage {
                                    flags: (page.flags & !PTE_COW) | PTE_W,
                                    data: page.data,
                                    refs: 1,
                                },
                            ),
                            left: if page.refs == 1 {
                                self.left
                            } else {
                                (self.left - 1) as nat
                            },
                            ..self
                        },
                        Ok(()),
                    ),
                )
            }
        } else {
            self.add_page(n, PTE_W | PTE_U | PTE_R)
        }
    }

    /// Making the page at `va0` usable, by a fault if it is not.
    pub open spec fn touch(self, size: int, va0: int) -> Option<(UserMem, Result<(), VmError>)> {
        if self.user(va0 / (PGSIZE as int)) {
            Some((self, Ok(())))
        } else {
            self.fault(size, va0)
        }
    }

    /// Making the page at `va0` writable, by a fault if it is not there or is to be copied on the
    /// first write.
    pub open spec fn reach(self, size: int, va0: int) -> Option<(UserMem, Result<(), VmError>)> {
        let n = va0 / (PGSIZE as int);
        if self.user(n) && (flag(self.pages[n].flags, PTE_W) || !flag(
            self.pages[n].flags,
            PTE_COW,
        )) {
            Some((self, Ok(())))
        } else {
            self.fault(size, va0)
        }
    }

    /// The bytes that fit from `va` to the end of its page, of `len`.
    pub open spec fn part(va: int, len: int) -> int {
        let room = PGSIZE - va % (PGSIZE as int);
        if len < room {
            len
        } else {
            room
        }
    }

    /// Copying `src` to `va`, page by page; a page that is shared is copied first. Ends at the first
    /// page that is not writable. `None` where a page is reserved.
    pub open spec fn copy_to(self, size: int, va: int, src: Seq<u8>) -> Option<
        (UserMem, Result<(), VmError>),
    >
        decreases src.len(),
    {
        let va0 = round_down(va);
        let n = va0 / (PGSIZE as int);
        let k = Self::part(va, src.len() as int);
        if src.len() == 0 {
            Some((self, Ok(())))
        } else if va0 > MAXVA {
            Some((self, Err(VmError::InvalidAddress)))
        } else {
            match self.reach(size, va0) {
                None => None,
                Some((m, Err(e))) => Some((m, Err(e))),
                Some((m, Ok(()))) => if n >= UPAGES || k <= 0 {
                    None
                } else if !flag(m.pages[n].flags, PTE_W) {
                    Some((m, Err(VmError::InvalidPte)))
                } else {
                    let page = m.pages[n];
                    UserMem {
                        pages: m.pages.insert(
                            n,
                            UserPage { data: splice(page.data, va - va0, src.take(k)), ..page },
                        ),
                        ..m
                    }.copy_to(size, va0 + PGSIZE, src.skip(k))
                },
            }
        }
    }

    /// Copying one byte to `va`.
    #[verifier::opaque]
    pub open spec fn put_byte(self, size: int, va: int, b: u8) -> Option<
        (UserMem, Result<(), VmError>),
    > {
        self.copy_to(size, va, seq![b])
    }

    /// Copying `len` bytes from `va`, page by page, after the bytes `acc`. `None` where a page is
    /// reserved.
    pub open spec fn copy_from(self, size: int, va: int, len: int, acc: Seq<u8>) -> Option<
        (UserMem, Result<Seq<u8>, VmError>),
    >
        decreases len,
    {
        let va0 = round_down(va);
        let n = va0 / (PGSIZE as int);
        let k = Self::part(va, len);
        if len <= 0 {
            Some((self, Ok(acc)))
        } else {
            match self.touch(size, va0) {
                None => None,
                Some((m, Err(e))) => Some((m, Err(e))),
                Some((m, Ok(()))) => if n >= UPAGES || k <= 0 {
                    None
                } else {
                    m.copy_from(
                        size,
                        va0 + PGSIZE,
                        len - k,
                        acc + m.pages[n].data.subrange(va - va0, va - va0 + k),
                    )
                },
            }
        }
    }
}

/// The flags of a page that is shared copy-on-write.
pub open spec fn cow_flags(flags: u64) -> u64 {
    if flag(flags, PTE_W) {
        (flags & !PTE_W) | PTE_COW
    } else {
        flags
    }
}

/// The memory of a parent and a child, and whether the parent's could be copied.
#[verifier::ext_equal]
pub struct Forked {
    pub parent: UserMem,
    pub child: UserMem,
    pub result: Result<(), VmError>,
}

impl UserMem {
    /// Sharing page `n` with `child`: both get it copy-on-write. On an error the child loses the
    /// pages before it. `None` where a count would overflow, the child has the page, or the page
    /// can only be written.
    pub open spec fn share_page(self, child: UserMem, n: int) -> Option<Forked> {
        let page = self.pages[n];
        let flags = cow_flags(page.flags);
        let tagged = self.pages.insert(n, UserPage { flags, ..page });
        let (shape, f, ok) = child.shape.grow(n * PGSIZE, child.left);
        if !self.pages.contains_key(n) {
            Some(Forked { parent: self, child, result: Ok(()) })
        } else if n >= UPAGES || page.refs == u8::MAX || child.pages.contains_key(n) || !leaf(flags) {
            None
        } else if ok {
            let both = UserPage { flags, data: page.data, refs: (page.refs + 1) as u8 };
            Some(
                Forked {
                    parent: UserMem { pages: self.pages.insert(n, both), left: f, ..self },
                    child: UserMem { pages: child.pages.insert(n, both), shape, left: f },
                    result: Ok(()),
                },
            )
        } else {
            let undone = UserMem { shape, left: f, ..child }.unmap(0, n as nat);
            Some(
                Forked {
                    parent: UserMem {
                        pages: Self::unshare(tagged, undone.pages, n, child.pages),
                        left: undone.left,
                        ..self
                    },
                    child: undone,
                    result: Err(VmError::Alloc),
                },
            )
        }
    }

    /// The parent's pages after the child lost those below `n`: each that was shared has one
    /// reference less.
    pub open spec fn unshare(
        pages: Map<int, UserPage>,
        undone: Map<int, UserPage>,
        n: int,
        child: Map<int, UserPage>,
    ) -> Map<int, UserPage> {
        pages.map_entries(
            |m: int, page: UserPage|
                if 0 <= m < n && child.contains_key(m) && page.refs > 1 {
                    UserPage { refs: (page.refs - 1) as u8, ..page }
                } else {
                    page
                },
        )
    }

    /// Sharing the pages from `n` up to `end` with `child`.
    pub open spec fn share(self, child: UserMem, n: int, end: int) -> Option<Forked>
        decreases end - n,
    {
        if n >= end {
            Some(Forked { parent: self, child, result: Ok(()) })
        } else {
            match self.share_page(child, n) {
                None => None,
                Some(f) => if f.result is Err {
                    Some(f)
                } else {
                    f.parent.share(f.child, n + 1, end)
                },
            }
        }
    }
}

impl UserMem {
    /// Every page that is for the process to use has all its bytes.
    pub open spec fn whole(self) -> bool {
        forall|n: int| #[trigger]
            self.pages.contains_key(n) && n < UPAGES ==> self.pages[n].data.len() == PGSIZE
    }

    /// Reading keeps pages whole, and reads as many bytes as were asked for if there is no error.
    pub proof fn lemma_copy_from(self, size: int, va: int, len: int, acc: Seq<u8>)
        requires
            self.whole(),
            0 <= len,
            self.copy_from(size, va, len, acc) is Some,
        ensures
            ({
                let (m, r) = self.copy_from(size, va, len, acc)->0;
                &&& m.whole()
                &&& r matches Ok(bytes) ==> bytes.len() == acc.len() + len
            }),
        decreases len,
    {
        if len > 0 {
            let va0 = round_down(va);
            let k = Self::part(va, len);
            let n = va0 / (PGSIZE as int);
            let (m, r) = self.touch(size, va0)->0;
            self.lemma_touch(size, va0);
            if r is Ok {
                m.lemma_copy_from(
                    size,
                    va0 + PGSIZE,
                    len - k,
                    acc + m.pages[n].data.subrange(va - va0, va - va0 + k),
                );
            }
        }
    }

    /// A fault keeps pages whole.
    pub proof fn lemma_touch(self, size: int, va0: int)
        requires
            self.whole(),
            self.touch(size, va0) is Some,
        ensures
            ({
                let (m, r) = self.touch(size, va0)->0;
                &&& m.whole()
                &&& r is Ok ==> m.pages.contains_key(va0 / (PGSIZE as int))
            }),
    {
        let n = va0 / (PGSIZE as int);
        let (m, r) = self.touch(size, va0)->0;
        assert forall|i: int| #[trigger]
            m.pages.contains_key(i) && i < UPAGES implies m.pages[i].data.len() == PGSIZE by {
            assert(i != n ==> self.pages.contains_key(i));
        }
    }
}

impl UserMem {
    /// There is a page at `a`.
    pub open spec fn at(self, a: int) -> bool {
        self.pages.contains_key(a / (PGSIZE as int))
    }

    /// The byte at `a`.
    pub open spec fn byte(self, a: int) -> u8 {
        self.pages[a / (PGSIZE as int)].data[a % (PGSIZE as int)]
    }

    /// From `a` on there is `bytes`.
    pub open spec fn shows(self, a: int, bytes: Seq<u8>) -> bool {
        forall|j: int| 0 <= j < bytes.len() ==> #[trigger] self.shows_one(a, bytes, j)
    }

    /// At `a + j` there is the byte `j` of `bytes`.
    pub open spec fn shows_one(self, a: int, bytes: Seq<u8>, j: int) -> bool {
        self.at(a + j) && self.byte(a + j) == bytes[j]
    }

    /// One more byte in front.
    pub proof fn lemma_shows(self, a: int, b: u8, rest: Seq<u8>)
        requires
            self.at(a),
            self.byte(a) == b,
            self.shows(a + 1, rest),
        ensures
            self.shows(a, seq![b] + rest),
    {
        let all = seq![b] + rest;
        assert forall|j: int| 0 <= j < all.len() implies #[trigger] self.shows_one(a, all, j) by {
            if j > 0 {
                assert(self.shows_one(a + 1, rest, j - 1));
                assert(a + 1 + (j - 1) == a + j);
            }
        }
    }

    /// `new` holds the same bytes, and may have new pages of zeros.
    pub open spec fn same_bytes(self, new: UserMem) -> bool {
        &&& forall|n: int| #[trigger]
            self.pages.contains_key(n) ==> new.pages.contains_key(n) && new.pages[n].data
                == self.pages[n].data
        &&& forall|n: int| #[trigger]
            new.pages.contains_key(n) && !self.pages.contains_key(n) ==> new.pages[n].data
                == zero_page()
    }

    /// Reading one byte changes none, and gives the one that is there.
    pub proof fn lemma_take_byte(self, size: int, va: int)
        requires
            self.whole(),
            0 <= va,
            self.copy_from(size, va, 1, seq![]) is Some,
        ensures
            ({
                let (m, r) = self.copy_from(size, va, 1, seq![])->0;
                &&& m.whole()
                &&& self.same_bytes(m)
                &&& r matches Ok(bytes) ==> m.at(va) && bytes == seq![m.byte(va)]
            }),
    {
        let va0 = round_down(va);
        let n = va0 / (PGSIZE as int);
        let k = Self::part(va, 1);
        let (m, r) = self.touch(size, va0)->0;
        self.lemma_touch(size, va0);
        assert(n == va / (PGSIZE as int) && va - va0 == va % (PGSIZE as int));
        assert(k == 1);
        if r is Ok {
            let one = m.pages[n].data.subrange(va - va0, va - va0 + 1);
            assert(Seq::<u8>::empty() + one =~= seq![m.byte(va)]);
            assert(m.copy_from(size, va0 + PGSIZE, 0, seq![m.byte(va)]) == Some(
                (m, Ok::<Seq<u8>, VmError>(seq![m.byte(va)])),
            ));
        }
    }

    /// Writing one byte changes no other.
    pub proof fn lemma_put_byte(self, size: int, va: int, b: u8)
        requires
            self.whole(),
            0 <= va,
            self.put_byte(size, va, b) is Some,
        ensures
            ({
                let (m, r) = self.put_byte(size, va, b)->0;
                &&& m.whole()
                &&& r is Err ==> self.same_bytes(m)
                &&& r is Ok ==> m.at(va) && m.byte(va) == b
                &&& forall|a: int|
                    #![trigger m.byte(a)]
                    #![trigger self.byte(a)]
                    0 <= a && a != va && self.at(a) && a / (PGSIZE as int) < UPAGES ==> m.at(a)
                        && m.byte(a) == self.byte(a)
                &&& forall|a: int| #[trigger] self.at(a) ==> m.at(a)
            }),
    {
        reveal(UserMem::put_byte);
        let va0 = round_down(va);
        let n = va0 / (PGSIZE as int);
        let src = seq![b];
        let k = Self::part(va, 1);
        assert(n == va / (PGSIZE as int) && va - va0 == va % (PGSIZE as int));
        assert(k == 1);
        assert(src.take(1) =~= src);
        assert(src.skip(1).len() == 0);
        let (last, r) = self.put_byte(size, va, b)->0;
        if va0 <= MAXVA {
            let (m, reached) = self.reach(size, va0)->0;
            assert forall|i: int| #[trigger]
                m.pages.contains_key(i) && i < UPAGES implies m.pages[i].data.len() == PGSIZE by {
                assert(i != n ==> self.pages.contains_key(i));
            }
            assert(self.same_bytes(m));
            if reached is Ok && flag(m.pages[n].flags, PTE_W) {
                let page = m.pages[n];
                let m2 = UserMem {
                    pages: m.pages.insert(
                        n,
                        UserPage { data: splice(page.data, va - va0, src), ..page },
                    ),
                    ..m
                };
                assert(m2.copy_to(size, va0 + PGSIZE, src.skip(1)) == Some(
                    (m2, Ok::<(), VmError>(())),
                ));
                assert(last == m2);
                assert(m.pages.contains_key(n));
                assert(m2.whole());
            } else {
                assert(last == m);
            }
        }
    }

    /// A byte is written below the reserved pages only.
    pub proof fn lemma_put_below(self, size: int, va: int, b: u8)
        requires
            0 <= va,
            self.put_byte(size, va, b) matches Some((_, Ok(()))),
        ensures
            va / (PGSIZE as int) < UPAGES,
    {
        reveal(UserMem::put_byte);
        assert(round_down(va) / (PGSIZE as int) == va / (PGSIZE as int));
    }
}

} // verus!
