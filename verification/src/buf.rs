//! The buffer cache: copies of disk blocks in memory, recycled in least-recently-used order.
use vstd::prelude::*;
use crate::param::NBUF;
use crate::sleeplock::{SleepLock, SleepLockGuard};
use crate::virtio_disk::{BlockId, Disk, BSIZE};

verus! {

/// Buffer metadata.
#[derive(Debug, Clone, Copy)]
pub struct BufMeta {
    pub valid: bool,
    pub disk: bool,
    pub dev: u32,
    pub block_no: u32,
    pub ref_count: u32,
    // LRU linked list using indices
    pub prev: usize,
    pub next: usize,
}

impl BufMeta {
    /// The block that the buffer stands for. `(0, 0)` is what an unused buffer carries.
    pub open spec fn id(self) -> BlockId {
        (self.dev, self.block_no)
    }

    /// Metadata of an unused buffer.
    pub fn new() -> (r: Self)
        ensures
            r == (BufMeta {
                valid: false,
                disk: false,
                dev: 0,
                block_no: 0,
                ref_count: 0,
                prev: 0,
                next: 0,
            }),
    {
        BufMeta { valid: false, disk: false, dev: 0, block_no: 0, ref_count: 0, prev: 0, next: 0 }
    }
}

/// Buffer data.
#[derive(Debug, Clone, Copy)]
pub struct BufData {
    pub data: [u8; BSIZE],
}

impl BufData {
    /// A zeroed buffer.
    pub fn new() -> (r: Self)
        ensures
            r.data@ == crate::virtio_disk::zeros(),
    {
        let r = BufData { data: [0u8;BSIZE] };
        assert(r.data@ =~= crate::virtio_disk::zeros());
        r
    }
}

/// A locked buffer, as handed out by `get` and `read`.
pub struct Buf {
    pub id: usize,
    /// The block that the buffer is for.
    pub block: Ghost<BlockId>,
    pub guard: SleepLockGuard<BufData>,
}

impl Buf {
    /// The block's bytes.
    pub open spec fn bytes(self) -> Seq<u8> {
        self.guard.data.data@
    }

    /// The buffer's contents.
    pub fn data(&self) -> (r: &[u8; BSIZE])
        ensures
            r@ == self.bytes(),
    {
        &self.guard.data.data
    }

    /// The buffer's contents, for writing.
    pub fn data_mut(&mut self) -> (r: &mut [u8; BSIZE])
        ensures
            r@ == old(self).bytes(),
            final(r)@ == final(self).bytes(),
            final(self).id == old(self).id,
            final(self).block == old(self).block,
    {
        &mut self.guard.data.data
    }
}

/// Metadata of the buffer cache.
///
/// The buffers form a circular doubly-linked list through `prev` and `next`; `lru` is that list
/// as a sequence, starting at `head`, the most recently released buffer second and the least
/// recently released one last. The head itself is never recycled.
pub struct BCacheInner {
    pub meta: Vec<BufMeta>,
    pub head: usize,
    pub lru: Ghost<Seq<usize>>,
}

/// The element after position `k` on the circle `o`.
pub open spec fn after(o: Seq<usize>, k: int) -> usize {
    if k + 1 == o.len() {
        o[0]
    } else {
        o[k + 1]
    }
}

/// The element before position `k` on the circle `o`.
pub open spec fn before(o: Seq<usize>, k: int) -> usize {
    if k == 0 {
        o.last()
    } else {
        o[k - 1]
    }
}

/// `o` with `x` moved to the second place.
pub open spec fn move_to_front(o: Seq<usize>, x: usize) -> Seq<usize> {
    seq![o[0], x] + o.subrange(1, o.index_of(x)) + o.subrange(o.index_of(x) + 1, o.len() as int)
}

impl BCacheInner {
    /// The links form the circle `lru` over all buffers.
    pub open spec fn list_wf(self) -> bool {
        let o = self.lru@;
        &&& self.meta.len() == NBUF
        &&& o.len() == NBUF
        &&& o[0] == self.head
        &&& forall|k: int| 0 <= k < NBUF ==> #[trigger] o[k] < NBUF
        &&& o.no_duplicates()
        &&& forall|i: usize| i < NBUF ==> #[trigger] o.contains(i)
        &&& forall|k: int| 0 <= k < NBUF ==> #[trigger] self.linked(k)
    }

    /// The links of the buffer at position `k` of the list.
    pub open spec fn linked(self, k: int) -> bool {
        let o = self.lru@;
        &&& self.meta@[o[k] as int].next == after(o, k)
        &&& self.meta@[o[k] as int].prev == before(o, k)
    }

    /// Buffer `i` stands for block `id`.
    pub open spec fn has_at(self, i: int, id: BlockId) -> bool {
        0 <= i < NBUF && self.meta@[i].id() == id
    }

    /// Some buffer stands for block `id`.
    pub open spec fn has(self, id: BlockId) -> bool {
        exists|i: int| self.has_at(i, id)
    }

    /// Buffer `i` is the first that stands for block `id`.
    pub open spec fn first_at(self, i: int, id: BlockId) -> bool {
        self.has_at(i, id) && forall|j: int| 0 <= j < i ==> !#[trigger] self.has_at(j, id)
    }

    /// The first buffer that stands for block `id`.
    pub open spec fn slot(self, id: BlockId) -> int {
        choose|i: int| self.first_at(i, id)
    }

    /// No two buffers stand for the same block.
    pub open spec fn unique(self) -> bool {
        forall|i: int, j: int|
            #![trigger self.meta@[i], self.meta@[j]]
            0 <= i < NBUF && 0 <= j < NBUF && i != j && self.meta@[i].id() == self.meta@[j].id()
                ==> self.meta@[i].id() == (0u32, 0u32)
    }

    /// The least recently released buffer that nobody refers to is at position `k` of the list.
    pub open spec fn victim_at(self, k: int) -> bool {
        &&& 1 <= k < NBUF
        &&& self.meta@[self.lru@[k] as int].ref_count == 0
        &&& forall|j: int| k < j < NBUF ==> self.meta@[#[trigger] self.lru@[j] as int].ref_count != 0
    }

    /// Some buffer can be recycled.
    pub open spec fn has_victim(self) -> bool {
        exists|k: int| 1 <= k < NBUF && self.meta@[#[trigger] self.lru@[k] as int].ref_count == 0
    }

    pub proof fn lemma_slot(self, i: int, id: BlockId)
        requires
            self.unique(),
            self.has_at(i, id),
            id != (0u32, 0u32),
        ensures
            self.has(id),
            self.slot(id) == i,
    {
        assert forall|j: int| 0 <= j < i implies !#[trigger] self.has_at(j, id) by {
            assert(self.meta@[j].id() != self.meta@[i].id() || j == i);
        }
        self.lemma_first(i, id);
    }

    /// Where a buffer stands for a block there is a first one.
    pub proof fn lemma_has(self, i: int, id: BlockId)
        requires
            self.has_at(i, id),
        ensures
            self.first_at(self.slot(id), id),
        decreases i,
    {
        if exists|j: int| 0 <= j < i && #[trigger] self.has_at(j, id) {
            let j = choose|j: int| 0 <= j < i && #[trigger] self.has_at(j, id);
            self.lemma_has(j, id);
        } else {
            assert(self.first_at(i, id));
        }
    }

    pub proof fn lemma_first(self, i: int, id: BlockId)
        requires
            self.first_at(i, id),
        ensures
            self.has(id),
            self.slot(id) == i,
    {
        let c = self.slot(id);
        assert(self.first_at(c, id));
        if c < i {
            assert(self.has_at(c, id));
        }
        if i < c {
            assert(self.has_at(i, id));
        }
    }
}

impl BCacheInner {
    /// Moves a buffer that is not the head behind the head.
    fn to_front(&mut self, id: usize)
        requires
            old(self).list_wf(),
            id < NBUF,
            id != old(self).head,
        ensures
            final(self).list_wf(),
            final(self).head == old(self).head,
            final(self).lru@ == move_to_front(old(self).lru@, id),
            forall|j: int|
                0 <= j < NBUF ==> {
                    let m = #[trigger] final(self).meta@[j];
                    m == (BufMeta { prev: m.prev, next: m.next, ..old(self).meta@[j] })
                },
    {
        let ghost s0 = *self;
        let ghost o = s0.lru@;
        let ghost k = o.index_of(id);
        proof {
            assert(o.contains(id));
            assert(o[k] == id);
            assert(k >= 1);
            assert(s0.linked(k));
            assert(s0.linked(0));
        }
        // from: prev -> current -> next
        // to:   prev -> next
        let next = self.meta[id].next;
        let prev = self.meta[id].prev;
        self.meta[next].prev = prev;
        self.meta[prev].next = next;
        // from: head -> first
        // to:   head -> current -> first
        let head = self.head;
        let first = self.meta[head].next;
        self.meta[id].next = first;
        self.meta[id].prev = head;
        self.meta[first].prev = id;
        self.meta[head].next = id;
        self.lru = Ghost(move_to_front(o, id));
        proof {
            lemma_move_to_front(o, id);
            assert forall|j: int| 0 <= j < NBUF implies #[trigger] self.linked(j) by {
                lemma_relink(s0, s0.meta@, self.meta@, k, j);
            }
        }
    }
}

/// Buffer cache.
///
/// * To get a buffer for a particular disk block, call `read`.
/// * After changing buffer data, call `write` to write it to disk.
/// * When done with the buffer, call `release`.
/// * Do not use the buffer after calling `release`.
/// * Only one process at a time can use a buffer, so do not keep them longer than necessary.
pub struct BCache {
    pub inner: BCacheInner,
    /// Each buffer's data is protected by its own lock.
    pub bufs: Vec<SleepLock<BufData>>,
}

impl BCache {
    /// The list is sound, no block is cached twice, and a buffer that is locked is referred to.
    pub open spec fn sound(self) -> bool {
        &&& self.inner.list_wf()
        &&& self.inner.unique()
        &&& self.bufs.len() == NBUF
        &&& forall|i: int|
            0 <= i < NBUF ==> (#[trigger] self.bufs@[i].inner.locked ==> self.inner.meta@[i].ref_count
                > 0)
    }

    /// The buffers for block 0 of device 0, of which the head of the list is one, are unused.
    pub open spec fn blank(self) -> bool {
        &&& forall|i: int|
            0 <= i < NBUF && #[trigger] self.inner.meta@[i].id() == (0u32, 0u32) ==> {
                &&& !self.inner.meta@[i].valid
                &&& self.inner.meta@[i].ref_count == 0
            }
        &&& self.inner.meta@[self.inner.head as int].id() == (0u32, 0u32)
    }

    /// The cache is sound, and nobody uses the head of the list.
    pub open spec fn wf(self) -> bool {
        self.sound() && self.blank()
    }

    /// Buffer `i` holds the contents of its block.
    pub open spec fn valid_at(self, i: int, id: BlockId) -> bool {
        self.inner.has_at(i, id) && self.inner.meta@[i].valid
    }

    /// The contents of block `id`: the cached copy if there is one, else what is on `disk`.
    pub open spec fn block(self, disk: Map<BlockId, Seq<u8>>, id: BlockId) -> Seq<u8> {
        if exists|i: int| self.valid_at(i, id) {
            self.bufs@[choose|i: int| self.valid_at(i, id)].data.data@
        } else {
            disk[id]
        }
    }

    /// An empty cache, with its buffers on a circle from the first to the last.
    pub fn new() -> (r: Self)
        ensures
            r.wf(),
            forall|i: int| 0 <= i < NBUF ==> (#[trigger] r.inner.meta@[i]).id() == (0u32, 0u32),
            forall|i: int|
                0 <= i < NBUF ==> !(#[trigger] r.bufs@[i]).inner.locked,
            forall|disk: Map<BlockId, Seq<u8>>, id: BlockId| #[trigger]
                r.block(disk, id) == disk[id],
    {
        let mut bufs: Vec<SleepLock<BufData>> = Vec::new();
        let mut meta: Vec<BufMeta> = Vec::new();
        let mut i: usize = 0;
        while i < NBUF
            invariant
                i <= NBUF,
                bufs.len() == i,
                meta.len() == i,
                forall|j: int| 0 <= j < i ==> !(#[trigger] bufs@[j]).inner.locked,
                forall|j: int|
                    0 <= j < i ==> (#[trigger] meta@[j]) == (BufMeta {
                        valid: false,
                        disk: false,
                        dev: 0,
                        block_no: 0,
                        ref_count: 0,
                        prev: (if j == 0 {
                            (NBUF - 1) as usize
                        } else {
                            (j - 1) as usize
                        }),
                        next: (if j == NBUF - 1 {
                            0
                        } else {
                            (j + 1) as usize
                        }),
                    }),
            decreases NBUF - i,
        {
            bufs.push(SleepLock::new(BufData::new(), "buffer"));
            let mut m = BufMeta::new();
            m.prev = if i == 0 {
                NBUF - 1
            } else {
                i - 1
            };
            m.next = if i == NBUF - 1 {
                0
            } else {
                i + 1
            };
            meta.push(m);
            i += 1;
        }
        let ghost order = Seq::new(NBUF as nat, |k: int| k as usize);
        let r = BCache { inner: BCacheInner { meta, head: 0, lru: Ghost(order) }, bufs };
        assert(r.inner.list_wf()) by {
            assert forall|i: usize| i < NBUF implies #[trigger] order.contains(i) by {
                assert(order[i as int] == i);
            }
        }
        r
    }

    /// Looks through the cache for a block; if it is not there, recycles the least recently
    /// used buffer that nobody refers to. Returns the buffer locked for process `pid`.
    ///
    /// `None` says that another process has the buffer locked. The reference is taken all the
    /// same: the caller has to sleep until the buffer's lock is free and take it then.
    pub fn get(&mut self, dev: u32, block_no: u32, pid: u64) -> (r: Option<Buf>)
        requires
            old(self).sound(),
            old(self).inner.has((dev, block_no)) || old(self).inner.has_victim(),
            old(self).inner.has((dev, block_no)) ==> old(self).inner.meta@[old(self).inner.slot(
                (dev, block_no),
            )].ref_count < u32::MAX,
        ensures
            final(self).sound(),
            old(self).blank() && (dev, block_no) != (0u32, 0u32) ==> final(self).blank(),
            final(self).inner.lru == old(self).inner.lru,
            final(self).inner.head == old(self).inner.head,
            ({
                let id = (dev, block_no);
                let hit = old(self).inner.has(id);
                let i = final(self).inner.slot(id);
                let m0 = old(self).inner.meta@[i];
                &&& final(self).inner.has_at(i, id)
                &&& if hit {
                    &&& i == old(self).inner.slot(id)
                    &&& final(self).inner.meta@ == old(self).inner.meta@.update(
                        i,
                        BufMeta { ref_count: (m0.ref_count + 1) as u32, ..m0 },
                    )
                } else {
                    &&& exists|k: int| #[trigger]
                        old(self).inner.victim_at(k) && i == old(self).inner.lru@[k]
                    &&& m0.ref_count == 0
                    &&& i != old(self).inner.head
                    &&& final(self).inner.meta@ == old(self).inner.meta@.update(
                        i,
                        BufMeta { dev, block_no, valid: false, ref_count: 1, ..m0 },
                    )
                }
                &&& r is None <==> old(self).bufs@[i].inner.locked
                &&& r is None ==> final(self).bufs@ == old(self).bufs@
                &&& r matches Some(buf) ==> {
                    &&& buf.block@ == id
                    &&& buf.id == i
                    &&& buf.guard.data == old(self).bufs@[i].data
                    &&& final(self).bufs@ == old(self).bufs@.update(i, final(self).bufs@[i])
                    &&& final(self).bufs@[i].data == old(self).bufs@[i].data
                    &&& final(self).bufs@[i].inner.locked
                }
            }),
    {
        let ghost id = (dev, block_no);
        // is the block already cached?
        let mut i: usize = 0;
        while i < NBUF
            invariant
                *self == *old(self),
                self.sound(),
                i <= NBUF,
                id == (dev, block_no),
                self.inner.has(id) ==> self.inner.meta@[self.inner.slot(id)].ref_count < u32::MAX,
                forall|j: int| 0 <= j < i ==> !#[trigger] self.inner.has_at(j, id),
            decreases NBUF - i,
        {
            if self.inner.meta[i].dev == dev && self.inner.meta[i].block_no == block_no {
                proof {
                    assert(self.inner.first_at(i as int, id));
                    self.inner.lemma_first(i as int, id);
                }
                self.inner.meta[i].ref_count = self.inner.meta[i].ref_count + 1;
                assert(self.inner.list_wf()) by {
                    assert forall|j: int| 0 <= j < NBUF implies #[trigger] self.inner.linked(j) by {
                        assert(old(self).inner.linked(j));
                    }
                }
                proof {
                    assert forall|j: int| 0 <= j < i implies !#[trigger] self.inner.has_at(j, id) by {
                        assert(!old(self).inner.has_at(j, id));
                    }
                    assert(self.inner.first_at(i as int, id));
                    self.inner.lemma_first(i as int, id);
                }
                return match self.bufs[i].lock(pid) {
                    Some(guard) => Some(Buf { id: i, block: Ghost((dev, block_no)), guard }),
                    None => None,
                };
            }
            i += 1;
        }
        assert(!self.inner.has(id));

        // not cached: recycle the least recently used unused buffer, starting from the tail
        let head = self.inner.head;
        assert(self.inner.lru@[0] == head);
        assert(self.inner.linked(0));
        let mut i: usize = self.inner.meta[head].prev;
        let ghost mut k: int = NBUF - 1;
        while self.inner.meta[i].ref_count != 0
            invariant
                *self == *old(self),
                self.sound(),
                1 <= k < NBUF,
                i == self.inner.lru@[k],
                self.inner.has_victim(),
                forall|j: int|
                    k < j < NBUF ==> self.inner.meta@[#[trigger] self.inner.lru@[j] as int].ref_count
                        != 0,
            decreases k,
        {
            proof {
                let w = choose|w: int|
                    1 <= w < NBUF && self.inner.meta@[#[trigger] self.inner.lru@[w] as int].ref_count
                        == 0;
                assert(w < k);
                assert(self.inner.linked(k));
            }
            i = self.inner.meta[i].prev;
            proof {
                k = k - 1;
            }
        }
        assert(self.inner.victim_at(k));
        assert(i != head);
        self.inner.meta[i].dev = dev;
        self.inner.meta[i].block_no = block_no;
        self.inner.meta[i].valid = false;
        self.inner.meta[i].ref_count = 1;
        assert(self.inner.list_wf()) by {
            assert forall|j: int| 0 <= j < NBUF implies #[trigger] self.inner.linked(j) by {
                assert(old(self).inner.linked(j));
            }
        }
        assert(self.inner.unique()) by {
            assert forall|a: int| 0 <= a < NBUF && a != i implies (
            #[trigger] self.inner.meta@[a]).id() != id by {
                assert(!old(self).inner.has_at(a, id));
            }
        }
        proof {
            assert forall|j: int| 0 <= j < i implies !#[trigger] self.inner.has_at(j, id) by {
                assert(!old(self).inner.has_at(j, id));
            }
            assert(self.inner.first_at(i as int, id));
            self.inner.lemma_first(i as int, id);
        }
        match self.bufs[i].lock(pid) {
            Some(guard) => Some(Buf { id: i, block: Ghost((dev, block_no)), guard }),
            None => None,
        }
    }

    /// Returns a locked buffer with the contents of the indicated block, read from `disk` if the
    /// cache does not have them. `None` is to be taken as in `get`.
    pub fn read(&mut self, disk: &mut Disk, dev: u32, block_no: u32, pid: u64) -> (r: Option<Buf>)
        requires
            old(self).sound(),
            old(self).inner.has((dev, block_no)) || old(self).inner.has_victim(),
            old(self).inner.has((dev, block_no)) ==> old(self).inner.meta@[old(self).inner.slot(
                (dev, block_no),
            )].ref_count < u32::MAX,
        ensures
            final(self).sound(),
            old(self).blank() && (dev, block_no) != (0u32, 0u32) ==> final(self).blank(),
            final(self).inner.lru == old(self).inner.lru,
            final(self).inner.head == old(self).inner.head,
            final(disk)@ == old(disk)@,
            final(disk).writes() == old(disk).writes(),
            ({
                let id = (dev, block_no);
                let hit = old(self).inner.has(id);
                let i = final(self).inner.slot(id);
                let m0 = old(self).inner.meta@[i];
                &&& final(self).inner.has_at(i, id)
                &&& if hit {
                    &&& i == old(self).inner.slot(id)
                    &&& final(self).inner.meta@ == old(self).inner.meta@.update(
                        i,
                        BufMeta {
                            ref_count: (m0.ref_count + 1) as u32,
                            valid: m0.valid || r is Some,
                            ..m0
                        },
                    )
                } else {
                    &&& exists|k: int| #[trigger]
                        old(self).inner.victim_at(k) && i == old(self).inner.lru@[k]
                    &&& m0.ref_count == 0
                    &&& i != old(self).inner.head
                    &&& final(self).inner.meta@ == old(self).inner.meta@.update(
                        i,
                        BufMeta { dev, block_no, valid: r is Some, ref_count: 1, ..m0 },
                    )
                }
                &&& r is None <==> old(self).bufs@[i].inner.locked
                &&& r is None ==> final(self).bufs@ == old(self).bufs@
                &&& r matches Some(buf) ==> {
                    &&& buf.block@ == id
                    &&& buf.id == i
                    &&& buf.bytes() == (if hit && m0.valid {
                        old(self).bufs@[i].data.data@
                    } else {
                        old(disk)@[id]
                    })
                    &&& final(self).bufs@ == old(self).bufs@.update(i, final(self).bufs@[i])
                    &&& final(self).bufs@[i].data.data@ == buf.bytes()
                    &&& final(self).bufs@[i].inner.locked
                }
            }),
    {
        let ghost id = (dev, block_no);
        let mut buf = match self.get(dev, block_no, pid) {
            Some(buf) => buf,
            None => {
                return None;
            },
        };
        if !self.inner.meta[buf.id].valid {
            // read from disk
            disk.rw(dev, block_no, &mut buf.guard.data.data, false);
            let ghost before = self.inner;
            self.bufs[buf.id].data = buf.guard.data;
            self.inner.meta[buf.id].valid = true;
            assert(self.inner.list_wf()) by {
                assert forall|j: int| 0 <= j < NBUF implies #[trigger] self.inner.linked(j) by {
                    assert(before.linked(j));
                }
            }
            proof {
                let i = buf.id as int;
                assert(before.first_at(i, id)) by {
                    before.lemma_has(i, id);
                }
                assert forall|j: int| 0 <= j < i implies !#[trigger] self.inner.has_at(j, id) by {
                    assert(!before.has_at(j, id));
                }
                assert(self.inner.first_at(i, id));
                self.inner.lemma_first(i, id);
            }
        }
        Some(buf)
    }

    /// Writes `buf`'s contents to disk.
    pub fn write(&mut self, disk: &mut Disk, buf: &mut Buf)
        requires
            old(self).sound(),
            old(buf).id < NBUF,
        ensures
            final(self).sound(),
            old(self).blank() ==> final(self).blank(),
            final(self).inner == old(self).inner,
            *final(buf) == *old(buf),
            final(disk)@ == old(disk)@.insert(
                old(self).inner.meta@[old(buf).id as int].id(),
                old(buf).bytes(),
            ),
            final(disk).writes() == old(disk).writes().push(
                (old(self).inner.meta@[old(buf).id as int].id(), old(buf).bytes()),
            ),
            final(self).bufs@ == old(self).bufs@.update(
                old(buf).id as int,
                final(self).bufs@[old(buf).id as int],
            ),
            final(self).bufs@[old(buf).id as int].data == old(buf).guard.data,
            final(self).bufs@[old(buf).id as int].inner == old(self).bufs@[old(
                buf,
            ).id as int].inner,
    {
        let id = buf.id;
        let dev = self.inner.meta[id].dev;
        let block_no = self.inner.meta[id].block_no;
        self.bufs[id].data = buf.guard.data;
        let mut data: [u8; BSIZE] = buf.guard.data.data;
        disk.rw(dev, block_no, &mut data, true);
    }

    /// Releases a locked buffer, which is not the head of the list. When nobody refers to it any
    /// more it moves to the head of the most-recently-used list.
    pub fn release(&mut self, buf: Buf)
        requires
            old(self).sound(),
            buf.id < NBUF,
            old(self).inner.meta@[buf.id as int].ref_count > 0,
            buf.id != old(self).inner.head,
        ensures
            final(self).sound(),
            old(self).blank() ==> final(self).blank(),
            final(self).inner.head == old(self).inner.head,
            ({
                let i = buf.id as int;
                let m0 = old(self).inner.meta@[i];
                let idle = m0.ref_count == 1;
                &&& final(self).inner.lru@ == (if idle {
                    move_to_front(old(self).inner.lru@, buf.id)
                } else {
                    old(self).inner.lru@
                })
                &&& forall|j: int|
                    0 <= j < NBUF ==> {
                        let m = #[trigger] final(self).inner.meta@[j];
                        let o = old(self).inner.meta@[j];
                        m == (BufMeta {
                            ref_count: (if j == i {
                                (o.ref_count - 1) as u32
                            } else {
                                o.ref_count
                            }),
                            prev: m.prev,
                            next: m.next,
                            ..o
                        })
                    }
                &&& final(self).bufs@ == old(self).bufs@.update(i, final(self).bufs@[i])
                &&& final(self).bufs@[i].data == buf.guard.data
                &&& !final(self).bufs@[i].inner.locked
            }),
    {
        let id = buf.id;
        self.bufs[id].unlock(buf.guard);
        let ghost s0 = self.inner;
        self.inner.meta[id].ref_count = self.inner.meta[id].ref_count - 1;
        assert(self.inner.list_wf()) by {
            assert forall|j: int| 0 <= j < NBUF implies #[trigger] self.inner.linked(j) by {
                assert(s0.linked(j));
            }
        }
        if self.inner.meta[id].ref_count == 0 {
            self.inner.to_front(id);
        }
    }

    /// Increments the reference count of the buffer so that it is not recycled.
    pub fn pin(&mut self, buf: &Buf)
        requires
            old(self).sound(),
            buf.id < NBUF,
            old(self).inner.meta@[buf.id as int].ref_count < u32::MAX,
        ensures
            final(self).sound(),
            old(self).blank() && old(self).inner.meta@[buf.id as int].id() != (0u32, 0u32)
                ==> final(self).blank(),
            final(self).bufs == old(self).bufs,
            final(self).inner.lru == old(self).inner.lru,
            final(self).inner.head == old(self).inner.head,
            final(self).inner.meta@ == old(self).inner.meta@.update(
                buf.id as int,
                BufMeta {
                    ref_count: (old(self).inner.meta@[buf.id as int].ref_count + 1) as u32,
                    ..old(self).inner.meta@[buf.id as int]
                },
            ),
    {
        let ghost s0 = self.inner;
        self.inner.meta[buf.id].ref_count = self.inner.meta[buf.id].ref_count + 1;
        assert(self.inner.list_wf()) by {
            assert forall|j: int| 0 <= j < NBUF implies #[trigger] self.inner.linked(j) by {
                assert(s0.linked(j));
            }
        }
    }

    /// Decrements the reference count of the buffer, which the caller still has locked.
    pub fn unpin(&mut self, buf: &Buf)
        requires
            old(self).sound(),
            buf.id < NBUF,
            old(self).inner.meta@[buf.id as int].ref_count > 1,
        ensures
            final(self).sound(),
            old(self).blank() ==> final(self).blank(),
            final(self).bufs == old(self).bufs,
            final(self).inner.lru == old(self).inner.lru,
            final(self).inner.head == old(self).inner.head,
            final(self).inner.meta@ == old(self).inner.meta@.update(
                buf.id as int,
                BufMeta {
                    ref_count: (old(self).inner.meta@[buf.id as int].ref_count - 1) as u32,
                    ..old(self).inner.meta@[buf.id as int]
                },
            ),
    {
        let ghost s0 = self.inner;
        self.inner.meta[buf.id].ref_count = self.inner.meta[buf.id].ref_count - 1;
        assert(self.inner.list_wf()) by {
            assert forall|j: int| 0 <= j < NBUF implies #[trigger] self.inner.linked(j) by {
                assert(s0.linked(j));
            }
        }
    }
}

/// The metadata after the buffer at position `k` was unlinked and put behind the head.
spec fn relinked(m0: Seq<BufMeta>, o: Seq<usize>, k: int, i: int) -> BufMeta {
    let next = after(o, k);
    let prev = before(o, k);
    let first = if k == 1 {
        next
    } else {
        o[1]
    };
    BufMeta {
        prev: (if i == first {
            o[k]
        } else if i == o[k] {
            o[0]
        } else if i == next {
            prev
        } else {
            m0[i].prev
        }),
        next: (if i == o[0] {
            o[k]
        } else if i == o[k] {
            first
        } else if i == prev {
            next
        } else {
            m0[i].next
        }),
        ..m0[i]
    }
}

/// After the relinking the circle is `move_to_front` of the old one.
proof fn lemma_relink(s0: BCacheInner, m0: Seq<BufMeta>, m1: Seq<BufMeta>, k: int, j: int)
    requires
        s0.list_wf(),
        m0.len() == NBUF,
        m1.len() == NBUF,
        1 <= k < NBUF,
        forall|i: int|
            0 <= i < NBUF ==> (#[trigger] m0[i]).next == s0.meta@[i].next && m0[i].prev
                == s0.meta@[i].prev,
        forall|i: int| 0 <= i < NBUF ==> #[trigger] m1[i] == relinked(m0, s0.lru@, k, i),
        0 <= j < NBUF,
    ensures
        ({
            let m = move_to_front(s0.lru@, s0.lru@[k]);
            &&& m1[m[j] as int].next == after(m, j)
            &&& m1[m[j] as int].prev == before(m, j)
        }),
{
    let o = s0.lru@;
    lemma_move_to_front(o, o[k]);
    let m = move_to_front(o, o[k]);
    let at: int = if j == 0 {
        0
    } else if j == 1 {
        k
    } else if j <= k {
        j - 1
    } else {
        j
    };
    assert(o.index_of(o[k]) == k);
    assert(s0.linked(at));
    assert(m[j] == o[at]);
    assert(m1[o[at] as int] == relinked(m0, o, k, o[at] as int));
}

/// Moving an element to the second place keeps the set of elements.
proof fn lemma_move_to_front(o: Seq<usize>, x: usize)
    requires
        o.no_duplicates(),
        o.contains(x),
        o[0] != x,
    ensures
        ({
            let m = move_to_front(o, x);
            let k = o.index_of(x);
            &&& 1 <= k < o.len()
            &&& o[k] == x
            &&& m.len() == o.len()
            &&& m.no_duplicates()
            &&& m[0] == o[0]
            &&& m[1] == x
            &&& forall|j: int| 2 <= j <= k ==> #[trigger] m[j] == o[j - 1]
            &&& forall|j: int| k < j < o.len() ==> #[trigger] m[j] == o[j]
            &&& forall|y: usize| #[trigger] m.contains(y) <==> o.contains(y)
        }),
{
    let m = move_to_front(o, x);
    let k = o.index_of(x);
    assert(o[k] == x);
    assert forall|y: usize| #[trigger] m.contains(y) <==> o.contains(y) by {
        if m.contains(y) {
            let j = m.index_of(y);
            assert(m[j] == y);
            if 2 <= j <= k {
                assert(o[j - 1] == y);
            } else if j > k {
                assert(o[j] == y);
            }
        }
        if o.contains(y) {
            let j = o.index_of(y);
            assert(o[j] == y);
            if j == 0 {
                assert(m[0] == y);
            } else if j == k {
                assert(m[1] == y);
            } else if j < k {
                assert(m[j + 1] == y);
            } else {
                assert(m[j] == y);
            }
        }
    }
}

} // verus!
