//! What copying between the kernel and a process means for the bytes of its memory.
use vstd::prelude::*;
use crate::kalloc::zero_page;
use crate::le::splice;
use crate::riscv::{round_down, MAXVA, PGSIZE, PTE_COW, PTE_R, PTE_W};
use crate::vm::usermem::{UserMem, UserPage, UPAGES};
use crate::vm::flag;
use crate::vm::laws::lemma_page_flags;

verus! {

impl UserMem {
    /// The byte at `a` is the same in `new`, or is zero there if it was not there before.
    pub open spec fn byte_kept(self, new: UserMem, a: int) -> bool {
        &&& self.at(a) ==> new.at(a) && new.byte(a) == self.byte(a)
        &&& new.at(a) && !self.at(a) ==> new.byte(a) == 0
    }

    /// No byte of the process differs in `new` but those from `from` up to `to`.
    pub open spec fn only_within(self, new: UserMem, from: int, to: int) -> bool {
        forall|a: int|
            0 <= a && !(from <= a < to) && a / (PGSIZE as int) < UPAGES
                ==> #[trigger] self.byte_kept(new, a)
    }

    /// The byte at `a` can be read by the process.
    pub open spec fn can_read(self, a: int) -> bool {
        self.user(a / (PGSIZE as int))
    }

    /// The byte at `a` can be written by the process.
    pub open spec fn can_write(self, a: int) -> bool {
        a < MAXVA && self.can_read(a) && flag(self.pages[a / (PGSIZE as int)].flags, PTE_W)
    }

    /// The `n` bytes from `a` on.
    pub open spec fn bytes_at(self, a: int, n: int) -> Seq<u8> {
        Seq::new(n as nat, |j: int| self.byte(a + j))
    }

    /// What is shown is what is there.
    pub proof fn lemma_bytes_at(self, a: int, bytes: Seq<u8>)
        requires
            self.shows(a, bytes),
        ensures
            self.bytes_at(a, bytes.len() as int) == bytes,
    {
        assert forall|j: int| 0 <= j < bytes.len() implies self.byte(a + j) == bytes[j] by {
            assert(self.shows_one(a, bytes, j));
        }
        assert(self.bytes_at(a, bytes.len() as int) =~= bytes);
    }

    pub proof fn lemma_within_trans(self, mid: UserMem, new: UserMem, from: int, to: int)
        requires
            self.only_within(mid, from, to),
            mid.only_within(new, from, to),
        ensures
            self.only_within(new, from, to),
    {
        assert forall|a: int|
            0 <= a && !(from <= a < to) && a / (PGSIZE as int) < UPAGES implies #[trigger] self.byte_kept(
            new,
            a,
        ) by {
            assert(self.byte_kept(mid, a) && mid.byte_kept(new, a));
        }
    }

    pub proof fn lemma_same_within(self, new: UserMem, from: int, to: int)
        requires
            self.same_bytes(new),
        ensures
            self.only_within(new, from, to),
    {
        assert forall|a: int|
            0 <= a && !(from <= a < to) && a / (PGSIZE as int) < UPAGES implies #[trigger] self.byte_kept(
            new,
            a,
        ) by {
            let n = a / (PGSIZE as int);
            assert(self.pages.contains_key(n) || !self.pages.contains_key(n));
            assert(zero_page()[a % (PGSIZE as int)] == 0);
        }
    }

    pub proof fn lemma_same_trans(self, mid: UserMem, new: UserMem)
        requires
            self.same_bytes(mid),
            mid.same_bytes(new),
        ensures
            self.same_bytes(new),
    {
        assert forall|n: int| #[trigger]
            new.pages.contains_key(n) && !self.pages.contains_key(n) implies new.pages[n].data
            == zero_page() by {
            assert(mid.pages.contains_key(n) || !mid.pages.contains_key(n));
        }
    }

    /// Bytes that are shown are still shown where none of them changed.
    pub proof fn lemma_still_shows(self, new: UserMem, at: int, bytes: Seq<u8>, from: int, to: int)
        requires
            0 <= at,
            self.shows(at, bytes),
            self.only_within(new, from, to),
            at + bytes.len() <= from || to <= at,
            bytes.len() > 0 ==> (at + bytes.len() - 1) / (PGSIZE as int) < UPAGES,
        ensures
            new.shows(at, bytes),
    {
        assert forall|j: int| 0 <= j < bytes.len() implies #[trigger] new.shows_one(at, bytes, j) by {
            assert(self.shows_one(at, bytes, j));
            assert(self.byte_kept(new, at + j));
        }
    }

    /// Where all bytes are the same, what was shown still is.
    pub proof fn lemma_same_shows(self, new: UserMem, at: int, bytes: Seq<u8>)
        requires
            self.shows(at, bytes),
            self.same_bytes(new),
        ensures
            new.shows(at, bytes),
    {
        assert forall|j: int| 0 <= j < bytes.len() implies #[trigger] new.shows_one(at, bytes, j) by {
            assert(self.shows_one(at, bytes, j));
            assert(self.pages.contains_key((at + j) / (PGSIZE as int)));
        }
    }

    /// Two pieces, one behind the other, are one.
    pub proof fn lemma_shows_both(self, at: int, one: Seq<u8>, two: Seq<u8>)
        requires
            self.shows(at, one),
            self.shows(at + one.len(), two),
        ensures
            self.shows(at, one + two),
    {
        let all = one + two;
        assert forall|j: int| 0 <= j < all.len() implies #[trigger] self.shows_one(at, all, j) by {
            if j < one.len() {
                assert(self.shows_one(at, one, j));
            } else {
                assert(self.shows_one(at + one.len(), two, j - one.len()));
                assert(at + one.len() + (j - one.len()) == at + j);
            }
        }
    }
}

/// What making a page usable does to bytes: nothing but that a new page of zeros may be there.
proof fn lemma_touched_bytes(m: UserMem, size: int, va0: int)
    requires
        m.whole(),
        m.touch(size, va0) is Some,
    ensures
        ({
            let (m1, r) = m.touch(size, va0)->0;
            let n = va0 / (PGSIZE as int);
            &&& m1.whole()
            &&& m.same_bytes(m1)
            &&& r is Ok ==> m1.pages.contains_key(n)
            &&& r is Err ==> !m1.user(n)
            &&& m.user(n) ==> r is Ok
        }),
{
    m.lemma_touch(size, va0);
}

/// The same for writing.
proof fn lemma_reached_bytes(m: UserMem, size: int, va0: int)
    requires
        m.whole(),
        m.reach(size, va0) is Some,
    ensures
        ({
            let (m1, r) = m.reach(size, va0)->0;
            let n = va0 / (PGSIZE as int);
            &&& m1.whole()
            &&& m.same_bytes(m1)
            &&& r is Ok ==> m1.pages.contains_key(n)
            &&& r is Err ==> !(m1.user(n) && flag(m1.pages[n].flags, PTE_W))
            &&& m.user(n) && flag(m.pages[n].flags, PTE_W) ==> r is Ok && m1 == m
        }),
{
    let n = va0 / (PGSIZE as int);
    let (m1, r) = m.reach(size, va0)->0;
    assert forall|i: int| #[trigger]
        m1.pages.contains_key(i) && i < UPAGES implies m1.pages[i].data.len() == PGSIZE by {
        assert(i != n ==> m.pages.contains_key(i));
    }
}

/// Reading gives the bytes that are there, all that were asked for, or says that one of them cannot
/// be read. It changes no byte: at most pages of zeros are added.
pub proof fn law_copy_from_bytes(m: UserMem, size: int, va: int, len: int, acc: Seq<u8>)
    requires
        m.whole(),
        0 <= va,
        0 <= len,
        m.copy_from(size, va, len, acc) is Some,
    ensures
        ({
            let (m1, r) = m.copy_from(size, va, len, acc)->0;
            &&& m1.whole()
            &&& m.same_bytes(m1)
            &&& match r {
                Ok(bytes) => {
                    &&& bytes.len() == acc.len() + len
                    &&& bytes.take(acc.len() as int) == acc
                    &&& m1.shows(va, bytes.skip(acc.len() as int))
                },
                Err(_) => exists|a: int| va <= a < va + len && !#[trigger] m1.can_read(a),
            }
        }),
    decreases len,
{
    if len > 0 {
        let va0 = round_down(va);
        let n = va0 / (PGSIZE as int);
        let k = UserMem::part(va, len);
        let o = va - va0;
        assert(n == va / (PGSIZE as int) && o == va % (PGSIZE as int));
        lemma_touched_bytes(m, size, va0);
        let (m1, r1) = m.touch(size, va0)->0;
        if r1 is Ok {
            let part = m1.pages[n].data.subrange(o, o + k);
            assert(m1.shows(va, part)) by {
                assert forall|j: int| 0 <= j < part.len() implies #[trigger] m1.shows_one(
                    va,
                    part,
                    j,
                ) by {
                    assert((va + j) / (PGSIZE as int) == n && (va + j) % (PGSIZE as int) == o + j);
                }
            }
            law_copy_from_bytes(m1, size, va0 + PGSIZE, len - k, acc + part);
            let (m2, r) = m.copy_from(size, va, len, acc)->0;
            m.lemma_same_trans(m1, m2);
            m1.lemma_same_shows(m2, va, part);
            if let Ok(bytes) = r {
                let rest = bytes.skip((acc + part).len() as int);
                assert(bytes.take(acc.len() as int) =~= bytes.take((acc + part).len() as int).take(
                    acc.len() as int,
                ));
                assert((acc + part).take(acc.len() as int) =~= acc);
                assert(bytes.skip(acc.len() as int) =~= part + rest) by {
                    assert(forall|j: int|
                        0 <= j < part.len() ==> bytes.take((acc + part).len() as int)[acc.len() + j]
                            == part[j]);
                }
                assert(m2.shows(va + part.len(), rest)) by {
                    if len > k {
                        assert(va + part.len() == va0 + PGSIZE);
                    } else {
                        assert(rest.len() == 0);
                    }
                }
                m2.lemma_shows_both(va, part, rest);
            } else {
                let a = choose|a: int|
                    va0 + PGSIZE <= a < va0 + PGSIZE + (len - k) && !#[trigger] m2.can_read(a);
                assert(va <= a < va + len);
                assert(!m2.can_read(a));
            }
        } else {
            assert(!m1.can_read(va));
        }
    } else {
        assert(acc.take(acc.len() as int) =~= acc);
        assert forall|n: int| #[trigger] m.pages.contains_key(n) implies m.pages.contains_key(n) by {}
    }
}

/// Where every byte can be read, reading succeeds.
pub proof fn law_copy_from_succeeds(m: UserMem, size: int, va: int, len: int, acc: Seq<u8>)
    requires
        m.whole(),
        0 <= va,
        0 <= len,
        m.copy_from(size, va, len, acc) is Some,
        forall|a: int| va <= a < va + len ==> #[trigger] m.can_read(a),
    ensures
        ({
            let (m1, r) = m.copy_from(size, va, len, acc)->0;
            r is Ok && m1 == m
        }),
    decreases len,
{
    if len > 0 {
        let va0 = round_down(va);
        let n = va0 / (PGSIZE as int);
        let k = UserMem::part(va, len);
        assert(m.can_read(va));
        assert(n == va / (PGSIZE as int));
        let part = m.pages[n].data.subrange(va - va0, va - va0 + k);
        law_copy_from_succeeds(m, size, va0 + PGSIZE, len - k, acc + part);
    }
}

/// Writing puts the bytes where they belong and changes no other. If it fails, one of the bytes
/// cannot be written.
pub proof fn law_copy_to_bytes(m: UserMem, size: int, va: int, src: Seq<u8>)
    requires
        m.whole(),
        0 <= va,
        m.copy_to(size, va, src) is Some,
    ensures
        ({
            let (m1, r) = m.copy_to(size, va, src)->0;
            &&& m1.whole()
            &&& m.only_within(m1, va, va + src.len())
            &&& match r {
                Ok(_) => m1.shows(va, src) && (src.len() > 0 ==> (va + src.len() - 1) / (
                PGSIZE as int) < UPAGES),
                Err(_) => exists|a: int|
                    va <= a < va + src.len() && !#[trigger] m1.can_write(a),
            }
        }),
    decreases src.len(),
{
    let (last, r) = m.copy_to(size, va, src)->0;
    if src.len() == 0 {
        assert(m.same_bytes(m));
        m.lemma_same_within(m, va, va);
    } else {
        let va0 = round_down(va);
        let n = va0 / (PGSIZE as int);
        let k = UserMem::part(va, src.len() as int);
        let o = va - va0;
        let end = va + src.len();
        assert(n == va / (PGSIZE as int) && o == va % (PGSIZE as int));
        if va0 > MAXVA {
            assert(m.same_bytes(m));
            m.lemma_same_within(m, va, end);
            assert(!m.can_write(va));
        } else {
            lemma_reached_bytes(m, size, va0);
            let (m1, r1) = m.reach(size, va0)->0;
            m.lemma_same_within(m1, va, end);
            if r1 is Ok && flag(m1.pages[n].flags, PTE_W) {
                let page = m1.pages[n];
                let part = src.take(k);
                let m2 = UserMem {
                    pages: m1.pages.insert(n, UserPage { data: splice(page.data, o, part), ..page }),
                    ..m1
                };
                assert(m2.whole()) by {
                    assert forall|i: int| #[trigger]
                        m2.pages.contains_key(i) && i < UPAGES implies m2.pages[i].data.len()
                        == PGSIZE by {
                        assert(m1.pages.contains_key(i));
                    }
                }
                assert(m1.only_within(m2, va, end)) by {
                    assert forall|a: int|
                        0 <= a && !(va <= a < end) && a / (PGSIZE as int) < UPAGES implies #[trigger] m1.byte_kept(
                        m2,
                        a,
                    ) by {
                        if a / (PGSIZE as int) == n {
                            assert(a % (PGSIZE as int) == a - va0);
                        }
                    }
                }
                assert(m2.shows(va, part)) by {
                    assert forall|j: int| 0 <= j < part.len() implies #[trigger] m2.shows_one(
                        va,
                        part,
                        j,
                    ) by {
                        assert((va + j) / (PGSIZE as int) == n && (va + j) % (PGSIZE as int) == o + j);
                    }
                }
                let rest = src.skip(k);
                law_copy_to_bytes(m2, size, va0 + PGSIZE, rest);
                assert((last, r) == m2.copy_to(size, va0 + PGSIZE, rest)->0);
                let to = va0 + PGSIZE + rest.len();
                assert(m2.only_within(last, va, end)) by {
                    assert forall|a: int|
                        0 <= a && !(va <= a < end) && a / (PGSIZE as int) < UPAGES implies #[trigger] m2.byte_kept(
                        last,
                        a,
                    ) by {
                        if rest.len() > 0 {
                            assert(to == end);
                        }
                        assert(!(va0 + PGSIZE <= a < to));
                        assert(m2.byte_kept(last, a));
                    }
                }
                m.lemma_within_trans(m1, m2, va, end);
                m.lemma_within_trans(m2, last, va, end);
                assert((va + k - 1) / (PGSIZE as int) == n);
                m2.lemma_still_shows(last, va, part, va0 + PGSIZE, to);
                if r is Ok {
                    assert(last.shows(va + part.len(), rest)) by {
                        if rest.len() > 0 {
                            assert(va + part.len() == va0 + PGSIZE);
                        }
                    }
                    last.lemma_shows_both(va, part, rest);
                    assert(part + rest =~= src);
                } else {
                    let a = choose|a: int|
                        va0 + PGSIZE <= a < to && !#[trigger] last.can_write(a);
                    assert(va <= a < end);
                    assert(!last.can_write(a));
                }
            } else {
                assert(last == m1);
                assert(!m1.can_write(va));
            }
        }
    }
}

/// Where every byte can be written, writing succeeds.
pub proof fn law_copy_to_succeeds(m: UserMem, size: int, va: int, src: Seq<u8>)
    requires
        m.whole(),
        0 <= va,
        m.copy_to(size, va, src) is Some,
        forall|a: int| va <= a < va + src.len() ==> #[trigger] m.can_write(a),
    ensures
        (m.copy_to(size, va, src)->0).1 is Ok,
        forall|n: int| #[trigger]
            (m.copy_to(size, va, src)->0).0.pages.contains_key(n) == m.pages.contains_key(n),
        forall|n: int| #[trigger]
            m.pages.contains_key(n) ==> (m.copy_to(size, va, src)->0).0.pages[n].flags
                == m.pages[n].flags,
    decreases src.len(),
{
    if src.len() > 0 {
        let va0 = round_down(va);
        let n = va0 / (PGSIZE as int);
        let k = UserMem::part(va, src.len() as int);
        assert(m.can_write(va));
        assert(n == va / (PGSIZE as int));
        let page = m.pages[n];
        let m2 = UserMem {
            pages: m.pages.insert(
                n,
                UserPage { data: splice(page.data, va - va0, src.take(k)), ..page },
            ),
            ..m
        };
        assert(m2.whole());
        let rest = src.skip(k);
        assert forall|a: int| va0 + PGSIZE <= a < va0 + PGSIZE + rest.len() implies #[trigger] m2.can_write(a) by {
            assert(m.can_write(a));
        }
        law_copy_to_succeeds(m2, size, va0 + PGSIZE, rest);
        let last = (m.copy_to(size, va, src)->0).0;
        assert(last == (m2.copy_to(size, va0 + PGSIZE, rest)->0).0);
        assert forall|i: int| #[trigger] m.pages.contains_key(i) implies last.pages[i].flags
            == m.pages[i].flags by {
            assert(m2.pages.contains_key(i));
        }
        assert forall|i: int| #[trigger] last.pages.contains_key(i) == m.pages.contains_key(i) by {
            assert(m2.pages.contains_key(i) == m.pages.contains_key(i));
        }
    }
}

/// A fault at an address of the process where there is no page yet gives it a page of zeros that it
/// can read and write, and changes no other page. It takes one frame, and at most two more for
/// tables.
pub proof fn law_lazy_page(m: UserMem, size: int, va: int)
    requires
        PGSIZE <= va < size,
        va / (PGSIZE as int) < UPAGES,
        !m.pages.contains_key(va / (PGSIZE as int)),
        m.left >= 3,
    ensures
        ({
            let n = va / (PGSIZE as int);
            let (m1, r) = m.fault(size, va)->0;
            &&& m.fault(size, va) is Some
            &&& r is Ok
            &&& m1.user(n)
            &&& flag(m1.pages[n].flags, PTE_R) && flag(m1.pages[n].flags, PTE_W)
            &&& !flag(m1.pages[n].flags, PTE_COW)
            &&& m1.pages[n].data == Seq::new(PGSIZE as nat, |i: int| 0u8)
            &&& m1.pages[n].refs == 1
            &&& m1.pages.remove(n) == m.pages
            &&& m.left - 3 <= m1.left < m.left
        }),
{
    let n = va / (PGSIZE as int);
    let (m1, r) = m.fault(size, va)->0;
    lemma_page_flags(0);
    assert(m1.pages.remove(n) =~= m.pages);
    assert(zero_page() =~= Seq::new(PGSIZE as nat, |i: int| 0u8));
}

} // verus!
