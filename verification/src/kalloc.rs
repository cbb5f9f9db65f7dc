//! The allocator of page frames.
//!
//! Every frame in use has a reference count. The count is 1 when the frame is allocated. It is
//! incremented when fork causes a child to share the page, and decremented each time any process
//! drops the page from its page table. The frame is only deallocated when the count reaches 0.
use vstd::prelude::*;
use std::collections::HashMap;
use crate::memlayout::{KERNBASE, PHYSTOP};
use crate::riscv::PGSIZE;

verus! {

broadcast use vstd::std_specs::hash::group_hash_axioms;

/// Number of entries of a page table
pub const NPTE: usize = 512;

/// The buddy allocator of the `buddy_alloc` crate.
#[verifier::external_type_specification]
#[verifier::external_body]
pub struct ExBuddyAlloc(buddy_alloc::buddy_alloc::BuddyAlloc);

/// The page-size blocks that the allocator can hand out.
pub uninterp spec fn buddy_free(a: buddy_alloc::buddy_alloc::BuddyAlloc) -> Set<u64>;

/// The page-size blocks that the allocator has handed out and not got back.
pub uninterp spec fn buddy_used(a: buddy_alloc::buddy_alloc::BuddyAlloc) -> Set<u64>;

/// `BuddyAlloc::malloc`, asked for one page. It takes a free block of at least that size off its
/// lists, splits it in halves until one is of page size, and puts the other halves back on the
/// lists: one page-size block is handed out and every other one that was free still is. It
/// returns null when no block of that size is left.
#[verifier::external_body]
fn buddy_malloc(a: &mut buddy_alloc::buddy_alloc::BuddyAlloc) -> (r: u64)
    ensures
        r == 0 <==> forall|p: u64| !buddy_free(*old(a)).contains(p),
        r == 0 ==> buddy_free(*final(a)) == buddy_free(*old(a)) && buddy_used(*final(a))
            == buddy_used(*old(a)),
        r != 0 ==> buddy_free(*old(a)).contains(r) && !buddy_used(*old(a)).contains(r),
        r != 0 ==> buddy_free(*final(a)) == buddy_free(*old(a)).remove(r),
        r != 0 ==> buddy_used(*final(a)) == buddy_used(*old(a)).insert(r),
{
    a.malloc(PGSIZE as usize) as usize as u64
}

/// `BuddyAlloc::free`, for a page that was handed out. It marks the block free and merges it with
/// its buddy as long as that is free too: the page can be handed out again, and no other
/// page-size block changes.
#[verifier::external_body]
fn buddy_release(a: &mut buddy_alloc::buddy_alloc::BuddyAlloc, p: u64)
    requires
        buddy_used(*old(a)).contains(p),
    ensures
        buddy_free(*final(a)) == buddy_free(*old(a)).insert(p),
        buddy_used(*final(a)) == buddy_used(*old(a)).remove(p),
{
    a.free(core::ptr::with_exposed_provenance_mut(p as usize))
}

/// Where page frames come from: the buddy allocator over physical memory, or a list of frames that
/// were set aside.
pub enum Source {
    Buddy(buddy_alloc::buddy_alloc::BuddyAlloc),
    Reserve(Vec<u64>),
}

impl Source {
    /// The frames that can be handed out.
    pub open spec fn free(self) -> Set<u64> {
        match self {
            Source::Buddy(a) => buddy_free(a),
            Source::Reserve(list) => list@.to_set(),
        }
    }

    /// `p` was handed out, as far as the source keeps track of that.
    pub open spec fn gave(self, p: u64) -> bool {
        match self {
            Source::Buddy(a) => buddy_used(a).contains(p),
            Source::Reserve(list) => !list@.contains(p),
        }
    }

    /// No frame is listed twice.
    pub open spec fn wf(self) -> bool {
        self matches Source::Reserve(list) ==> list@.no_duplicates()
    }

    /// Takes a frame, if there is one.
    fn take(&mut self) -> (r: Option<u64>)
        requires
            old(self).wf(),
            forall|p: u64| #[trigger] old(self).free().contains(p) ==> p != 0,
        ensures
            final(self).wf(),
            r is None <==> forall|p: u64| !old(self).free().contains(p),
            r is None ==> final(self).free() == old(self).free(),
            r matches Some(p) ==> old(self).free().contains(p) && final(self).free() == old(
                self,
            ).free().remove(p) && final(self).gave(p),
            forall|p: u64| #[trigger] old(self).gave(p) ==> final(self).gave(p) && r != Some(p),
    {
        match self {
            Source::Buddy(a) => {
                let p = buddy_malloc(a);
                if p == 0 {
                    None
                } else {
                    assert(old(self).free().contains(p));
                    Some(p)
                }
            },
            Source::Reserve(list) => {
                let ghost l0 = list@;
                match list.pop() {
                    None => {
                        assert forall|p: u64| !l0.to_set().contains(p) by {
                            assert(!l0.contains(p));
                        }
                        assert(old(self).free() == l0.to_set());
                        None
                    },
                    Some(p) => {
                        proof {
                            assert(l0.contains(p));
                            assert(old(self).free().contains(p));
                            assert(list@ =~= l0.drop_last());
                            assert(list@.to_set() =~= l0.to_set().remove(p)) by {
                                assert forall|q: u64| list@.to_set().contains(q) == l0.to_set().remove(
                                    p,
                                ).contains(q) by {
                                    if l0.contains(q) && q != p {
                                        let i = l0.index_of(q);
                                        assert(list@[i] == q);
                                    }
                                    if list@.contains(q) {
                                        let i = list@.index_of(q);
                                        assert(l0[i] == q);
                                    }
                                }
                            }
                            assert(!list@.contains(p)) by {
                                assert(!l0.to_set().remove(p).contains(p));
                                assert(!list@.to_set().contains(p));
                            }
                        }
                        Some(p)
                    },
                }
            },
        }
    }

    /// Gives a frame back.
    fn give(&mut self, p: u64)
        requires
            old(self).wf(),
            old(self).gave(p),
        ensures
            final(self).wf(),
            final(self).free() == old(self).free().insert(p),
            forall|q: u64| #[trigger] old(self).gave(q) && q != p ==> final(self).gave(q),
    {
        match self {
            Source::Buddy(a) => {
                buddy_release(a, p);
            },
            Source::Reserve(list) => {
                let ghost l0 = list@;
                list.push(p);
                proof {
                    assert(list@.to_set() =~= l0.to_set().insert(p)) by {
                        assert(list@[l0.len() as int] == p);
                        assert forall|q: u64| l0.contains(q) implies list@.contains(q) by {
                            let i = l0.index_of(q);
                            assert(list@[i] == q);
                        }
                    }
                }
            },
        }
    }
}

/// What a frame is used for.
pub enum FrameData {
    /// The entries of a page table
    Table(Vec<u64>),
    /// The bytes of a page
    Page(Vec<u8>),
}

/// A frame in use.
pub struct Frame {
    pub refs: u8,
    pub data: FrameData,
}

/// What a frame holds.
#[verifier::ext_equal]
pub enum Content {
    Table(Seq<u64>),
    Page(Seq<u8>),
}

/// A frame in use, as a value.
#[verifier::ext_equal]
pub struct FrameState {
    pub refs: u8,
    pub content: Content,
}

impl View for Frame {
    type V = FrameState;

    open spec fn view(&self) -> FrameState {
        FrameState {
            refs: self.refs,
            content: match self.data {
                FrameData::Table(t) => Content::Table(t@),
                FrameData::Page(p) => Content::Page(p@),
            },
        }
    }
}

/// The frames that are free and those in use.
#[verifier::ext_equal]
pub struct KmemState {
    pub free: Set<u64>,
    pub frames: Map<u64, FrameState>,
}

/// A page of zeros.
pub open spec fn zero_page() -> Seq<u8> {
    Seq::new(PGSIZE as nat, |i: int| 0u8)
}

/// A page table without entries.
pub open spec fn zero_table() -> Seq<u64> {
    Seq::new(NPTE as nat, |i: int| 0u64)
}

/// `p` is a page of physical memory.
pub open spec fn page_ok(p: u64) -> bool {
    p % PGSIZE == 0 && KERNBASE <= p < PHYSTOP
}

impl KmemState {
    /// Every frame that was in use in `k0` is as it was, and no other one became free.
    pub open spec fn keeps(self, k0: KmemState) -> bool {
        &&& forall|p: u64| #[trigger]
            k0.frames.contains_key(p) ==> self.frames.contains_key(p) && self.frames[p]
                == k0.frames[p]
        &&& forall|p: u64| #[trigger] self.free.contains(p) ==> k0.free.contains(p)
    }

    /// The state after the free frame `p` was allocated with the given contents.
    pub open spec fn allocated(self, p: u64, content: Content) -> KmemState {
        KmemState {
            free: self.free.remove(p),
            frames: self.frames.insert(p, FrameState { refs: 1, content }),
        }
    }

    /// The state after a reference to `p` was dropped: with the last one goes the frame.
    pub open spec fn released(self, p: u64) -> KmemState {
        if self.frames[p].refs == 1 {
            KmemState { free: self.free.insert(p), frames: self.frames.remove(p) }
        } else {
            KmemState {
                frames: self.frames.insert(
                    p,
                    FrameState { refs: (self.frames[p].refs - 1) as u8, ..self.frames[p] },
                ),
                ..self
            }
        }
    }

    /// The state with other contents of `p`.
    pub open spec fn with(self, p: u64, content: Content) -> KmemState {
        KmemState {
            frames: self.frames.insert(p, FrameState { content, ..self.frames[p] }),
            ..self
        }
    }

    /// `p` is in use as a page table.
    pub open spec fn is_table(self, p: u64) -> bool {
        self.frames.contains_key(p) && self.frames[p].content is Table
    }

    /// `p` is in use as a page.
    pub open spec fn is_page(self, p: u64) -> bool {
        self.frames.contains_key(p) && self.frames[p].content is Page
    }

    /// The entries of the page table `p`.
    pub open spec fn table(self, p: u64) -> Seq<u64> {
        self.frames[p].content->Table_0
    }

    /// The bytes of the page `p`.
    pub open spec fn page(self, p: u64) -> Seq<u8> {
        self.frames[p].content->Page_0
    }
}

/// Kernel memory allocator
pub struct Kmem {
    source: Source,
    frames: HashMap<u64, Frame>,
}

impl View for Kmem {
    type V = KmemState;

    closed spec fn view(&self) -> KmemState {
        KmemState {
            free: self.source.free(),
            frames: self.frames@.map_values(|f: Frame| f@),
        }
    }
}

impl Kmem {
    /// Frames are pages of physical memory, in use or free but not both, and hold what they should.
    pub closed spec fn wf(self) -> bool {
        &&& self.source.wf()
        &&& self@.free.finite()
        &&& forall|p: u64| #[trigger] self@.free.contains(p) ==> page_ok(p) && !self.frames@.contains_key(p)
        &&& forall|p: u64| #[trigger]
            self.frames@.contains_key(p) ==> {
                &&& page_ok(p)
                &&& self.source.gave(p)
                &&& self.frames@[p].refs >= 1
                &&& match self.frames@[p].data {
                    FrameData::Table(t) => t@.len() == NPTE,
                    FrameData::Page(d) => d@.len() == PGSIZE,
                }
            }
    }

    /// What `wf` says of the frames.
    pub proof fn lemma_wf(self)
        requires
            self.wf(),
        ensures
            self@.free.finite(),
            forall|p: u64| #[trigger]
                self@.free.contains(p) ==> page_ok(p) && !self@.frames.contains_key(p),
            forall|p: u64| #[trigger]
                self@.frames.contains_key(p) ==> {
                    &&& page_ok(p)
                    &&& self@.frames[p].refs >= 1
                    &&& match self@.frames[p].content {
                        Content::Table(t) => t.len() == NPTE,
                        Content::Page(d) => d.len() == PGSIZE,
                    }
                },
    {
    }

    /// An allocator over the frames of `source`, none of which is in use.
    pub fn new(source: Source) -> (r: Self)
        requires
            source.wf(),
            source.free().finite(),
            forall|p: u64| #[trigger] source.free().contains(p) ==> page_ok(p),
        ensures
            r.wf(),
            r@ == (KmemState { free: source.free(), frames: Map::empty() }),
    {
        let r = Kmem { source, frames: HashMap::new() };
        assert(r@.frames =~= Map::empty());
        r
    }

    /// Allocates a frame with the given contents. `None` if no frame is free.
    fn allocate(&mut self, data: FrameData) -> (r: Option<u64>)
        requires
            old(self).wf(),
            match data {
                FrameData::Table(t) => t@.len() == NPTE,
                FrameData::Page(d) => d@.len() == PGSIZE,
            },
        ensures
            final(self).wf(),
            r is None <==> old(self)@.free.len() == 0,
            r is None ==> final(self)@ == old(self)@,
            r matches Some(p) ==> {
                &&& old(self)@.free.contains(p)
                &&& page_ok(p)
                &&& final(self)@ == old(self)@.allocated(p, (Frame { refs: 1, data })@.content)
            },
    {
        let ghost k0 = *self;
        proof {
            if forall|p: u64| !self@.free.contains(p) {
                assert(self@.free =~= Set::<u64>::empty());
            }
            if self@.free.len() == 0 {
                assert(self@.free =~= Set::<u64>::empty());
            }
        }
        match self.source.take() {
            None => {
                assert(self@.frames =~= k0@.frames);
                None
            },
            Some(p) => {
                self.frames.insert(p, Frame { refs: 1, data });
                proof {
                    assert(self@.frames =~= k0@.allocated(
                        p,
                        (Frame { refs: 1, data })@.content,
                    ).frames);
                    assert forall|q: u64| #[trigger] self.frames@.contains_key(q) implies self.source.gave(q) by {
                        if q != p {
                            assert(k0.frames@.contains_key(q));
                            assert(k0.source.gave(q));
                        }
                    }
                    assert forall|q: u64| #[trigger] self@.free.contains(q) implies page_ok(q)
                        && !self.frames@.contains_key(q) by {
                        assert(k0@.free.contains(q));
                    }
                    assert(k0@.free.contains(p));
                }
                Some(p)
            },
        }
    }

    /// Allocates a zeroed page.
    pub fn allocate_page(&mut self) -> (r: Option<u64>)
        requires
            old(self).wf(),
        ensures
            final(self).wf(),
            r is None <==> old(self)@.free.len() == 0,
            r is None ==> final(self)@ == old(self)@,
            r matches Some(p) ==> {
                &&& old(self)@.free.contains(p)
                &&& page_ok(p)
                &&& final(self)@ == old(self)@.allocated(p, Content::Page(zero_page()))
            },
    {
        let data: Vec<u8> = vec![0u8;PGSIZE as usize];
        assert(data@ =~= zero_page());
        self.allocate(FrameData::Page(data))
    }

    /// Allocates a page table without entries.
    pub fn allocate_table(&mut self) -> (r: Option<u64>)
        requires
            old(self).wf(),
        ensures
            final(self).wf(),
            r is None <==> old(self)@.free.len() == 0,
            r is None ==> final(self)@ == old(self)@,
            r matches Some(p) ==> {
                &&& old(self)@.free.contains(p)
                &&& page_ok(p)
                &&& final(self)@ == old(self)@.allocated(p, Content::Table(zero_table()))
            },
    {
        let data: Vec<u64> = vec![0u64;NPTE];
        assert(data@ =~= zero_table());
        self.allocate(FrameData::Table(data))
    }

    /// Drops a reference to a frame. If it was the last one, the frame is free again.
    pub fn release(&mut self, p: u64)
        requires
            old(self).wf(),
            old(self)@.frames.contains_key(p),
        ensures
            final(self).wf(),
            final(self)@ == old(self)@.released(p),
    {
        let ghost k0 = *self;
        let mut frame = self.frames.remove(&p).unwrap();
        if frame.refs == 1 {
            self.source.give(p);
            proof {
                assert(self@.frames =~= k0@.released(p).frames);
                assert forall|q: u64| #[trigger] self.frames@.contains_key(q) implies self.source.gave(q) by {
                    assert(k0.frames@.contains_key(q));
                    assert(k0.source.gave(q));
                }
                assert forall|q: u64| #[trigger] self@.free.contains(q) implies page_ok(q)
                    && !self.frames@.contains_key(q) by {
                    if q != p {
                        assert(k0@.free.contains(q));
                    } else {
                        assert(k0.frames@.contains_key(p));
                    }
                }
            }
        } else {
            frame.refs = frame.refs - 1;
            self.frames.insert(p, frame);
            proof {
                assert(self@.frames =~= k0@.released(p).frames);
                self.lemma_put(k0, p);
            }
        }
    }

    /// Increments the reference count of a frame.
    pub fn increment_ref(&mut self, p: u64)
        requires
            old(self).wf(),
            old(self)@.frames.contains_key(p),
            old(self)@.frames[p].refs < u8::MAX,
        ensures
            final(self).wf(),
            final(self)@ == (KmemState {
                frames: old(self)@.frames.insert(
                    p,
                    FrameState {
                        refs: (old(self)@.frames[p].refs + 1) as u8,
                        ..old(self)@.frames[p]
                    },
                ),
                ..old(self)@
            }),
    {
        let ghost k0 = *self;
        let mut frame = self.frames.remove(&p).unwrap();
        frame.refs = frame.refs + 1;
        self.frames.insert(p, frame);
        proof {
            assert(self@.frames =~= k0@.frames.insert(
                p,
                FrameState { refs: (k0@.frames[p].refs + 1) as u8, ..k0@.frames[p] },
            ));
            self.lemma_put(k0, p);
        }
    }

    /// Changing a frame in use keeps the rest in order.
    proof fn lemma_put(self, k0: Kmem, p: u64)
        requires
            k0.wf(),
            k0.frames@.contains_key(p),
            self.source == k0.source,
            self.frames@ =~= k0.frames@.insert(p, self.frames@[p]),
            self.frames@[p].refs >= 1,
            match self.frames@[p].data {
                FrameData::Table(t) => t@.len() == NPTE,
                FrameData::Page(d) => d@.len() == PGSIZE,
            },
        ensures
            self.wf(),
    {
        assert forall|q: u64| #[trigger] self@.free.contains(q) implies page_ok(q)
            && !self.frames@.contains_key(q) by {
            assert(k0@.free.contains(q));
        }
        assert forall|q: u64| #[trigger] self.frames@.contains_key(q) implies page_ok(q)
            && self.source.gave(q) by {
            assert(k0.frames@.contains_key(q));
        }
    }

    /// The entry `i` of the page table `p`.
    pub fn pte(&self, p: u64, i: usize) -> (r: u64)
        requires
            self.wf(),
            self@.is_table(p),
            i < NPTE,
        ensures
            r == self@.table(p)[i as int],
    {
        match &self.frames.get(&p).unwrap().data {
            FrameData::Table(t) => t[i],
            FrameData::Page(_) => 0,
        }
    }

    /// Sets the entry `i` of the page table `p`.
    pub fn set_pte(&mut self, p: u64, i: usize, v: u64)
        requires
            old(self).wf(),
            old(self)@.is_table(p),
            i < NPTE,
        ensures
            final(self).wf(),
            final(self)@ == old(self)@.with(
                p,
                Content::Table(old(self)@.table(p).update(i as int, v)),
            ),
    {
        let ghost k0 = *self;
        let frame = self.frames.remove(&p).unwrap();
        let data = match frame.data {
            FrameData::Table(mut t) => {
                t.set(i, v);
                FrameData::Table(t)
            },
            FrameData::Page(d) => FrameData::Page(d),
        };
        self.frames.insert(p, Frame { refs: frame.refs, data });
        proof {
            assert(self@.frames =~= k0@.with(
                p,
                Content::Table(k0@.table(p).update(i as int, v)),
            ).frames);
            self.lemma_put(k0, p);
        }
    }

    /// Copies `n` bytes of the page `p` at `off` to `dst`.
    pub fn read_page(&self, p: u64, off: usize, n: usize, dst: &mut Vec<u8>)
        requires
            self.wf(),
            self@.is_page(p),
            off + n <= PGSIZE,
        ensures
            final(dst)@ == old(dst)@ + self@.page(p).subrange(off as int, off + n),
    {
        let ghost d0 = dst@;
        match &self.frames.get(&p).unwrap().data {
            FrameData::Page(d) => {
                let mut i: usize = 0;
                while i < n
                    invariant
                        i <= n,
                        off + n <= PGSIZE,
                        d@.len() == PGSIZE,
                        dst@ == d0 + d@.subrange(off as int, off + i),
                    decreases n - i,
                {
                    dst.push(d[off + i]);
                    i += 1;
                    assert(dst@ =~= d0 + d@.subrange(off as int, off + i));
                }
            },
            FrameData::Table(_) => {},
        }
    }

    /// Copies `n` bytes of `src` at `from` into the page `p` at `off`.
    pub fn write_page(&mut self, p: u64, off: usize, src: &[u8], from: usize, n: usize)
        requires
            old(self).wf(),
            old(self)@.is_page(p),
            off + n <= PGSIZE,
            from + n <= src@.len(),
        ensures
            final(self).wf(),
            final(self)@ == old(self)@.with(
                p,
                Content::Page(
                    crate::le::splice(
                        old(self)@.page(p),
                        off as int,
                        src@.subrange(from as int, from + n),
                    ),
                ),
            ),
    {
        let ghost k0 = *self;
        let frame = self.frames.remove(&p).unwrap();
        let data = match frame.data {
            FrameData::Page(mut d) => {
                let ghost d0 = d@;
                let mut i: usize = 0;
                while i < n
                    invariant
                        i <= n,
                        off + n <= PGSIZE,
                        d@.len() == PGSIZE,
                        d0.len() == PGSIZE,
                        from + n <= src@.len(),
                        d@ == crate::le::splice(
                            d0,
                            off as int,
                            src@.subrange(from as int, from + i),
                        ),
                    decreases n - i,
                {
                    assert(from + n <= src.len());
                    d.set(off + i, src[from + i]);
                    i += 1;
                    assert(d@ =~= crate::le::splice(
                        d0,
                        off as int,
                        src@.subrange(from as int, from + i),
                    ));
                }
                FrameData::Page(d)
            },
            FrameData::Table(t) => FrameData::Table(t),
        };
        self.frames.insert(p, Frame { refs: frame.refs, data });
        proof {
            assert(self@.frames =~= k0@.with(
                p,
                Content::Page(
                    crate::le::splice(
                        k0@.page(p),
                        off as int,
                        src@.subrange(from as int, from + n),
                    ),
                ),
            ).frames);
            self.lemma_put(k0, p);
        }
    }
}

} // verus!
