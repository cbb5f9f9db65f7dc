//! Loading a program from its file.
use vstd::prelude::*;
use crate::exec::{ExecError, ProgramHeader};
use crate::fs::inode::{Inode, InodeData, InodeInner};
use crate::fs::SuperBlock;
use crate::kalloc::{Kmem, KmemState};
use crate::log::{Store, StoreState};
use crate::riscv::{round_up, PGSIZE};
use crate::sleeplock::SleepLockGuard;
use crate::vm::fork::lemma_unmap;
use crate::vm::usermem::{UserMem, UPAGES};
use crate::vm::uvm::{kmem_ok, lemma_apart_trans, Uvm};
use crate::vm::{VmError, VA};

verus! {

impl StoreState {
    /// Reading exactly `n` bytes at `offset` of the file `d`, if they are there.
    pub open spec fn read_exact(self, sb: SuperBlock, dev: u32, d: InodeData, offset: u32, n: u32) -> Option<
        (StoreState, InodeData, Option<Seq<u8>>),
    > {
        match self.read_inode(sb, dev, d, offset, n) {
            None => None,
            Some((s, d, Ok(bytes))) => Some(
                (
                    s,
                    d,
                    if bytes.len() == n {
                        Some(bytes)
                    } else {
                        None
                    },
                ),
            ),
            Some((s, d, Err(_))) => Some((s, d, None)),
        }
    }

    /// Loading the bytes from `i` up to `size` of a section, which is at `offset` of the file, to
    /// `va`. `None` where a page is not the process's alone.
    pub open spec fn load_segment(
        self,
        sb: SuperBlock,
        dev: u32,
        d: InodeData,
        m: UserMem,
        va: int,
        offset: u32,
        size: int,
        i: int,
    ) -> Option<(StoreState, InodeData, UserMem, Result<(), VmError>)>
        decreases size + PGSIZE - i,
    {
        let k = if size - i < PGSIZE {
            size - i
        } else {
            PGSIZE as int
        };
        if i >= size {
            Some((self, d, m, Ok(())))
        } else if va + i > u64::MAX || offset + i > u32::MAX {
            None
        } else {
            match self.load_part(sb, dev, d, m, va + i, (offset + i) as u32, k as u32) {
                None => None,
                Some((s, d, m, Err(e))) => Some((s, d, m, Err(e))),
                Some((s, d, m, Ok(()))) => s.load_segment(
                    sb,
                    dev,
                    d,
                    m,
                    va,
                    offset,
                    size,
                    i + PGSIZE,
                ),
            }
        }
    }

    /// Loading `k` bytes at `offset` of the file to the page at `va`. `None` where it is not the
    /// process's alone.
    #[verifier::opaque]
    pub open spec fn load_part(
        self,
        sb: SuperBlock,
        dev: u32,
        d: InodeData,
        m: UserMem,
        va: int,
        offset: u32,
        k: u32,
    ) -> Option<(StoreState, InodeData, UserMem, Result<(), VmError>)> {
        let n = va / (PGSIZE as int);
        if m.check(va) is Err {
            Some((self, d, m, m.check(va)))
        } else if n >= UPAGES || m.pages[n].refs != 1 {
            None
        } else {
            match self.read_exact(sb, dev, d, offset, k) {
                None => None,
                Some((s, d, None)) => Some((s, d, m, Err(VmError::Fs))),
                Some((s, d, Some(bytes))) => Some((s, d, m.load(n, bytes), Ok(()))),
            }
        }
    }
}

/// What came of loading the sections of a program.
#[verifier::ext_equal]
pub struct Loaded {
    pub store: StoreState,
    pub d: InodeData,
    pub mem: UserMem,
    /// How far the program reaches
    pub size: u64,
    pub result: Result<(), ExecError>,
    /// Whether the memory is left as it is though there was an error
    pub left: bool,
}

impl StoreState {
    /// Loading the sections whose headers are at `offset`, `n` of them, to the memory `m` of a
    /// program that reaches up to `size`. `None` where a size overflows or reaches reserved pages.
    pub open spec fn load_program(
        self,
        sb: SuperBlock,
        dev: u32,
        d: InodeData,
        m: UserMem,
        size: u64,
        offset: u64,
        n: int,
    ) -> Option<Loaded>
        decreases n,
    {
        if n <= 0 {
            Some(Loaded { store: self, d, mem: m, size, result: Ok(()), left: false })
        } else {
            match self.read_exact(sb, dev, d, offset as u32, ProgramHeader::SIZE as u32) {
                None => None,
                Some((s, d, None)) => Some(
                    Loaded {
                        store: s,
                        d,
                        mem: m,
                        size,
                        result: Err(ExecError::Memory),
                        left: true,
                    },
                ),
                Some((s, d, Some(bytes))) => {
                    let ph = ProgramHeader::of(bytes);
                    if offset + ProgramHeader::SIZE > u64::MAX {
                        None
                    } else if ph.typ != ProgramHeader::ELF_PROG_LOAD {
                        s.load_program(
                            sb,
                            dev,
                            d,
                            m,
                            size,
                            (offset + ProgramHeader::SIZE) as u64,
                            n - 1,
                        )
                    } else {
                        match s.load_section(sb, dev, d, m, size, ph) {
                            None => None,
                            Some(l) => if l.result is Err {
                                Some(l)
                            } else {
                                l.store.load_program(
                                    sb,
                                    dev,
                                    l.d,
                                    l.mem,
                                    l.size,
                                    (offset + ProgramHeader::SIZE) as u64,
                                    n - 1,
                                )
                            },
                        }
                    }
                },
            }
        }
    }

    /// Loading one section.
    pub open spec fn load_section(
        self,
        sb: SuperBlock,
        dev: u32,
        d: InodeData,
        m: UserMem,
        size: u64,
        ph: ProgramHeader,
    ) -> Option<Loaded> {
        if ph.bad() {
            Some(
                Loaded {
                    store: self,
                    d,
                    mem: m,
                    size,
                    result: Err(ExecError::Header),
                    left: false,
                },
            )
        } else {
            match m.allocate(size as int, ph.vaddr + ph.memsz, ph.perms()) {
                None => None,
                Some((m, Err(_))) => Some(
                    Loaded {
                        store: self,
                        d,
                        mem: m,
                        size,
                        result: Err(ExecError::Alloc),
                        left: false,
                    },
                ),
                Some((m, Ok(size))) => match self.load_segment(
                    sb,
                    dev,
                    d,
                    m,
                    ph.vaddr as int,
                    ph.offset as u32,
                    ph.filesz as int,
                    0,
                ) {
                    None => None,
                    Some((s, d, m, ok)) => Some(
                        Loaded {
                            store: s,
                            d,
                            mem: m,
                            size,
                            result: if ok is Ok {
                                Ok(())
                            } else {
                                Err(ExecError::Memory)
                            },
                            left: false,
                        },
                    ),
                },
            }
        }
    }
}

/// Reads exactly `n` bytes at `offset` of a file, if they are there.
pub(crate) fn read_exact(
    inode: &Inode,
    store: &mut Store,
    sb: &SuperBlock,
    inner: &mut SleepLockGuard<InodeInner>,
    offset: u32,
    n: u32,
) -> (r: Option<Vec<u8>>)
    requires
        old(store).wf(),
        sb.in_range(),
        old(store)@.read_exact(*sb, inode.dev, old(inner).data@, offset, n) is Some,
    ensures
        final(store).wf(),
        ({
            let (s, d, bytes) = old(store)@.read_exact(
                *sb,
                inode.dev,
                old(inner).data@,
                offset,
                n,
            )->0;
            &&& final(store)@ == s
            &&& final(inner).data@ == d
            &&& match bytes {
                Some(bytes) => r is Some && r->0@ == bytes && bytes.len() == n,
                None => r is None,
            }
        }),
{
    let mut buf: Vec<u8> = vec![0u8;n as usize];
    match inode.read(store, sb, inner, offset, buf.as_mut_slice()) {
        Ok(k) => {
            if k == n {
                proof {
                    let (s, d, bytes) = old(store)@.read_inode(
                        *sb,
                        inode.dev,
                        old(inner).data@,
                        offset,
                        n,
                    )->0;
                    assert(buf@ =~= bytes->Ok_0);
                }
                Some(buf)
            } else {
                None
            }
        },
        Err(_) => None,
    }
}

impl UserMem {
    /// What growing does to the pages of a process: new ones lie between the sizes.
    pub proof fn lemma_allocate(self, old_size: int, new_size: int, xperm: u64)
        requires
            0 <= old_size,
            0 <= new_size,
            self.within(old_size),
            self.reserved_ok(),
            self.allocate(old_size, new_size, xperm) is Some,
        ensures
            ({
                let (m, r) = self.allocate(old_size, new_size, xperm)->0;
                &&& m.reserved_ok()
                &&& r matches Ok(size) ==> size <= UPAGES * PGSIZE || size <= round_up(old_size)
                &&& m.within(
                    if r is Ok && old_size < new_size {
                        new_size
                    } else {
                        old_size
                    },
                )
            }),
    {
        if old_size <= new_size {
            let start = round_up(old_size) / (PGSIZE as int);
            let end = round_up(new_size) / (PGSIZE as int);
            let flags = crate::riscv::PTE_R | crate::riscv::PTE_U | xperm;
            self.lemma_add_pages(start, start, end, flags);
            let (m, r) = self.allocate(old_size, new_size, xperm)->0;
            assert(m.pages.contains_key(UPAGES as int));
            assert forall|i: int| UPAGES <= i && #[trigger] m.pages.contains_key(i) implies crate::vm::leaf(
                m.pages[i].flags,
            ) by {
                assert(self.pages.contains_key(i));
            }
        }
    }

    /// Adding pages changes no other ones, and none if it fails.
    pub(crate) proof fn lemma_add_pages(self, start: int, n: int, end: int, flags: u64)
        requires
            0 <= start <= n,
            n <= UPAGES || n == start,
            self.add_pages(start, n, end, flags) is Some,
        ensures
            ({
                let (m, r) = self.add_pages(start, n, end, flags)->0;
                &&& r is Ok && n < end ==> end <= UPAGES
                &&& r is Ok ==> forall|i: int| #[trigger]
                    m.pages.contains_key(i) ==> self.pages.contains_key(i) || n <= i < end
                &&& r is Err ==> forall|i: int| #[trigger]
                    m.pages.contains_key(i) ==> self.pages.contains_key(i) && !(start <= i < n)
                &&& forall|i: int|
                    UPAGES <= i ==> #[trigger] m.pages.contains_key(i) == self.pages.contains_key(i)
                &&& forall|i: int|
                    UPAGES <= i && self.pages.contains_key(i) ==> #[trigger] m.pages[i]
                        == self.pages[i]
            }),
        decreases end - n,
    {
        if n < end {
            match self.add_page(n, flags)->0 {
                (m, Err(e)) => {
                    lemma_unmap(m, start, (n - start) as nat);
                },
                (m, Ok(())) => {
                    m.lemma_add_pages(start, n + 1, end, flags);
                },
            }
            let (m1, _) = self.add_page(n, flags)->0;
            let (m, r) = self.add_pages(start, n, end, flags)->0;
            assert forall|i: int| UPAGES <= i && self.pages.contains_key(i) implies #[trigger] m.pages[i]
                == self.pages[i] by {
                assert(m1.pages.contains_key(i) && m1.pages[i] == self.pages[i]);
                assert(m.pages.contains_key(i));
            }
        }
    }
}

impl Uvm {
    /// Loads `k` bytes at `offset` of the file to the page at `va`.
    fn load_part(
        &mut self,
        kmem: &mut Kmem,
        store: &mut Store,
        sb: &SuperBlock,
        inode: &Inode,
        inner: &mut SleepLockGuard<InodeInner>,
        va: VA,
        offset: u32,
        k: u32,
    ) -> (r: Result<(), VmError>)
        requires
            old(kmem).wf(),
            old(self).wf(old(kmem)@),
            old(store).wf(),
            sb.in_range(),
            va.0 % PGSIZE == 0,
            k <= PGSIZE,
            old(store)@.load_part(
                *sb,
                inode.dev,
                old(inner).data@,
                old(self).mem(old(kmem)@),
                va.0 as int,
                offset,
                k,
            ) is Some,
        ensures
            final(kmem).wf(),
            final(self).wf(final(kmem)@),
            final(store).wf(),
            old(self).apart(old(kmem)@, *final(self), final(kmem)@),
            Some((final(store)@, final(inner).data@, final(self).mem(final(kmem)@), r)) == old(
                store,
            )@.load_part(
                *sb,
                inode.dev,
                old(inner).data@,
                old(self).mem(old(kmem)@),
                va.0 as int,
                offset,
                k,
            ),
            final(self).mem(final(kmem)@).pages.dom() == old(self).mem(old(kmem)@).pages.dom(),
            forall|m: int| #[trigger]
                final(self).pte(final(kmem)@, m) == old(self).pte(old(kmem)@, m),
    {
        let ghost u1 = *self;
        let ghost k1 = kmem@;
        proof {
            kmem.lemma_wf();
            self.lemma_refl(k1);
            reveal(StoreState::load_part);
        }
        // the page must be there before anything is read
        if let Err(e) = self.check_page(kmem, va) {
            return Err(e);
        }
        let bytes = match read_exact(inode, store, sb, inner, offset, k) {
            Some(bytes) => bytes,
            None => {
                return Err(VmError::Fs);
            },
        };
        let r = self.load_page(kmem, va, &bytes);
        proof {
            let n = va.0 as int / (PGSIZE as int);
            assert(u1.mem(k1).pages.contains_key(n));
            assert(self.mem(kmem@).pages.dom() =~= u1.mem(k1).pages.dom());
        }
        r
    }

    /// Loads a section of a program from its file to `va`, which is the address of a page.
    pub fn load_elf_segment(
        &mut self,
        kmem: &mut Kmem,
        store: &mut Store,
        sb: &SuperBlock,
        inode: &Inode,
        inner: &mut SleepLockGuard<InodeInner>,
        va: VA,
        offset: u32,
        size: u64,
    ) -> (r: Result<(), VmError>)
        requires
            old(kmem).wf(),
            old(self).wf(old(kmem)@),
            old(store).wf(),
            sb.in_range(),
            va.0 % PGSIZE == 0,
            size <= UPAGES * PGSIZE,
            old(store)@.load_segment(
                *sb,
                inode.dev,
                old(inner).data@,
                old(self).mem(old(kmem)@),
                va.0 as int,
                offset,
                size as int,
                0,
            ) is Some,
        ensures
            final(kmem).wf(),
            final(self).wf(final(kmem)@),
            final(store).wf(),
            old(self).apart(old(kmem)@, *final(self), final(kmem)@),
            Some((final(store)@, final(inner).data@, final(self).mem(final(kmem)@), r)) == old(
                store,
            )@.load_segment(
                *sb,
                inode.dev,
                old(inner).data@,
                old(self).mem(old(kmem)@),
                va.0 as int,
                offset,
                size as int,
                0,
            ),
            final(self).mem(final(kmem)@).pages.dom() == old(self).mem(old(kmem)@).pages.dom(),
            forall|m: int| #[trigger]
                final(self).pte(final(kmem)@, m) == old(self).pte(old(kmem)@, m),
    {
        let ghost u0 = *self;
        let ghost k0 = kmem@;
        let ghost want = store@.load_segment(
            *sb,
            inode.dev,
            inner.data@,
            self.mem(k0),
            va.0 as int,
            offset,
            size as int,
            0,
        );
        proof {
            kmem.lemma_wf();
            self.lemma_refl(k0);
            self.lemma_owns(k0);
        }
        let mut i: u64 = 0;
        while i < size
            invariant
                kmem.wf(),
                self.wf(kmem@),
                store.wf(),
                sb.in_range(),
                va.0 % PGSIZE == 0,
                i % PGSIZE == 0,
                i < size + PGSIZE,
                size <= UPAGES * PGSIZE,
                u0 == *old(self),
                k0 == old(kmem)@,
                kmem_ok(k0),
                u0.wf(k0),
                forall|p: u64| #[trigger] u0.owns(k0, p) ==> k0.frames.contains_key(p),
                u0.apart(k0, *self, kmem@),
                want is Some,
                want == old(store)@.load_segment(
                    *sb,
                    inode.dev,
                    old(inner).data@,
                    u0.mem(k0),
                    va.0 as int,
                    offset,
                    size as int,
                    0,
                ),
                want == store@.load_segment(
                    *sb,
                    inode.dev,
                    inner.data@,
                    self.mem(kmem@),
                    va.0 as int,
                    offset,
                    size as int,
                    i as int,
                ),
                self.mem(kmem@).pages.dom() == u0.mem(k0).pages.dom(),
                forall|m: int| #[trigger] self.pte(kmem@, m) == u0.pte(k0, m),
            decreases size + PGSIZE - i,
        {
            let ghost u1 = *self;
            let ghost k1 = kmem@;
            proof {
                kmem.lemma_wf();
                self.lemma_owns(k1);
            }
            let k: u64 = if size - i < PGSIZE {
                size - i
            } else {
                PGSIZE
            };
            let at = VA(va.0 + i);
            let r = self.load_part(
                kmem,
                store,
                sb,
                inode,
                inner,
                at,
                offset + i as u32,
                k as u32,
            );
            proof {
                lemma_apart_trans(u0, k0, u1, k1, *self, kmem@);
                assert forall|m: int| #[trigger] self.pte(kmem@, m) == u0.pte(k0, m) by {
                    assert(u1.pte(k1, m) == u0.pte(k0, m));
                }
            }
            if let Err(e) = r {
                return Err(e);
            }
            i += PGSIZE;
        }
        Ok(())
    }
}

/// Loads one section. Returns how far the program reaches then.
fn load_section(
    uvm: &mut Uvm,
    kmem: &mut Kmem,
    store: &mut Store,
    sb: &SuperBlock,
    inode: &Inode,
    inner: &mut SleepLockGuard<InodeInner>,
    size: u64,
    ph: ProgramHeader,
) -> (r: (u64, Result<(), ExecError>))
    requires
        old(kmem).wf(),
        old(uvm).wf(old(kmem)@),
        size <= UPAGES * PGSIZE,
        old(uvm).mem(old(kmem)@).within(size as int),
        old(uvm).mem(old(kmem)@).reserved_ok(),
        old(store).wf(),
        sb.in_range(),
        old(store)@.load_section(
            *sb,
            inode.dev,
            old(inner).data@,
            old(uvm).mem(old(kmem)@),
            size,
            ph,
        ) is Some,
    ensures
        final(kmem).wf(),
        final(uvm).wf(final(kmem)@),
        r.0 <= UPAGES * PGSIZE,
        final(uvm).mem(final(kmem)@).within(r.0 as int),
        final(uvm).mem(final(kmem)@).reserved_ok(),
        final(store).wf(),
        old(uvm).apart(old(kmem)@, *final(uvm), final(kmem)@),
        old(uvm).same_reserved(old(kmem)@, *final(uvm), final(kmem)@),
        Some(
            Loaded {
                store: final(store)@,
                d: final(inner).data@,
                mem: final(uvm).mem(final(kmem)@),
                size: r.0,
                result: r.1,
                left: false,
            },
        ) == old(store)@.load_section(
            *sb,
            inode.dev,
            old(inner).data@,
            old(uvm).mem(old(kmem)@),
            size,
            ph,
        ),
{
    let ghost u0 = *uvm;
    let ghost k0 = kmem@;
    proof {
        kmem.lemma_wf();
        uvm.lemma_refl(k0);
        uvm.lemma_owns(k0);
    }
    if ph.memsz < ph.filesz || ph.vaddr.checked_add(ph.memsz).is_none() || ph.vaddr % PGSIZE != 0 {
        return (size, Err(ExecError::Header));
    }
    let end = ph.vaddr + ph.memsz;
    proof {
        u0.mem(k0).lemma_allocate(size as int, end as int, ph.perms());
    }
    let size = match uvm.allocate(kmem, size, end, ph.get_perms()) {
        Ok(size) => size,
        Err(_) => {
            return (size, Err(ExecError::Alloc));
        },
    };
    let ghost u1 = *uvm;
    let ghost k1 = kmem@;
    proof {
        kmem.lemma_wf();
    }
    let loaded = uvm.load_elf_segment(
        kmem,
        store,
        sb,
        inode,
        inner,
        VA(ph.vaddr),
        ph.offset as u32,
        ph.filesz,
    );
    proof {
        lemma_apart_trans(u0, k0, u1, k1, *uvm, kmem@);
        lemma_same_keys(u1, k1, *uvm, kmem@, size as int);
    }
    if loaded.is_err() {
        return (size, Err(ExecError::Memory));
    }
    (size, Ok(()))
}

/// Pages that stay where they are stay within the size, and reserved ones as they are.
pub(crate) proof fn lemma_same_keys(u: Uvm, k0: KmemState, v: Uvm, k1: KmemState, size: int)
    requires
        u.mem(k0).within(size),
        u.mem(k0).reserved_ok(),
        v.mem(k1).pages.dom() == u.mem(k0).pages.dom(),
        forall|m: int| UPAGES <= m ==> #[trigger] v.pte(k1, m) == u.pte(k0, m),
    ensures
        v.mem(k1).within(size),
        v.mem(k1).reserved_ok(),
{
    let a = u.mem(k0);
    let b = v.mem(k1);
    assert forall|n: int| #[trigger] b.pages.contains_key(n) implies a.pages.contains_key(n) by {
        assert(b.pages.dom().contains(n));
    }
    assert(a.pages.dom().contains(UPAGES as int));
    assert(b.pages.contains_key(UPAGES as int));
    assert forall|n: int| UPAGES <= n && #[trigger] b.pages.contains_key(n) implies crate::vm::leaf(
        b.pages[n].flags,
    ) by {
        assert(a.pages.contains_key(n));
        assert(v.pte(k1, n) == u.pte(k0, n));
    }
}

/// Loads the sections of a program, whose headers are at `phoff` of the file, into new memory.
/// Returns how far the program reaches, and whether the memory is left as it is.
pub(crate) fn load_program(
    uvm: &mut Uvm,
    kmem: &mut Kmem,
    store: &mut Store,
    sb: &SuperBlock,
    inode: &Inode,
    inner: &mut SleepLockGuard<InodeInner>,
    phoff: u64,
    phnum: u16,
) -> (r: (u64, Result<(), ExecError>, bool))
    requires
        old(kmem).wf(),
        old(uvm).wf(old(kmem)@),
        old(uvm).mem(old(kmem)@).within(0),
        old(uvm).mem(old(kmem)@).reserved_ok(),
        old(store).wf(),
        sb.in_range(),
        old(store)@.load_program(
            *sb,
            inode.dev,
            old(inner).data@,
            old(uvm).mem(old(kmem)@),
            0,
            phoff,
            phnum as int,
        ) is Some,
    ensures
        final(kmem).wf(),
        final(uvm).wf(final(kmem)@),
        r.0 <= UPAGES * PGSIZE,
        final(uvm).mem(final(kmem)@).within(r.0 as int),
        final(uvm).mem(final(kmem)@).reserved_ok(),
        final(store).wf(),
        old(uvm).apart(old(kmem)@, *final(uvm), final(kmem)@),
        old(uvm).same_reserved(old(kmem)@, *final(uvm), final(kmem)@),
        Some(
            Loaded {
                store: final(store)@,
                d: final(inner).data@,
                mem: final(uvm).mem(final(kmem)@),
                size: r.0,
                result: r.1,
                left: r.2,
            },
        ) == old(store)@.load_program(
            *sb,
            inode.dev,
            old(inner).data@,
            old(uvm).mem(old(kmem)@),
            0,
            phoff,
            phnum as int,
        ),
{
    let ghost u0 = *uvm;
    let ghost k0 = kmem@;
    let ghost want = store@.load_program(
        *sb,
        inode.dev,
        inner.data@,
        uvm.mem(k0),
        0,
        phoff,
        phnum as int,
    );
    proof {
        kmem.lemma_wf();
        uvm.lemma_refl(k0);
        uvm.lemma_owns(k0);
    }
    let mut size: u64 = 0;
    let mut offset: u64 = phoff;
    let mut i: u16 = 0;
    while i < phnum
        invariant
            i <= phnum,
            kmem.wf(),
            uvm.wf(kmem@),
            size <= UPAGES * PGSIZE,
            uvm.mem(kmem@).within(size as int),
            uvm.mem(kmem@).reserved_ok(),
            store.wf(),
            sb.in_range(),
            u0 == *old(uvm),
            k0 == old(kmem)@,
            kmem_ok(k0),
            u0.wf(k0),
            forall|p: u64| #[trigger] u0.owns(k0, p) ==> k0.frames.contains_key(p),
            u0.apart(k0, *uvm, kmem@),
            u0.same_reserved(k0, *uvm, kmem@),
            want is Some,
            want == old(store)@.load_program(
                *sb,
                inode.dev,
                old(inner).data@,
                u0.mem(k0),
                0,
                phoff,
                phnum as int,
            ),
            want == store@.load_program(
                *sb,
                inode.dev,
                inner.data@,
                uvm.mem(kmem@),
                size,
                offset,
                phnum - i,
            ),
        decreases phnum - i,
    {
        let bytes = match read_exact(
            inode,
            store,
            sb,
            inner,
            offset as u32,
            ProgramHeader::SIZE as u32,
        ) {
            Some(bytes) => bytes,
            None => {
                return (size, Err(ExecError::Memory), true);
            },
        };
        let ph = ProgramHeader::from_bytes(&bytes);
        offset += ProgramHeader::SIZE as u64;
        i += 1;
        if ph.typ == ProgramHeader::ELF_PROG_LOAD {
            let ghost u1 = *uvm;
            let ghost k1 = kmem@;
            proof {
                kmem.lemma_wf();
            }
            let (end, loaded) = load_section(uvm, kmem, store, sb, inode, inner, size, ph);
            proof {
                lemma_apart_trans(u0, k0, u1, k1, *uvm, kmem@);
            }
            if let Err(e) = loaded {
                return (end, Err(e), false);
            }
            size = end;
        }
    }
    (size, Ok(()), false)
}

} // verus!
