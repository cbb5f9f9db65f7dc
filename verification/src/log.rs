//! Write-ahead logging that allows concurrent file system calls.
//!
//! A log transaction contains the updates of multiple file system calls. The logging system only
//! commits when there are no file system calls active. Thus there is never any reasoning required
//! about whether a commit might write an uncommitted system call's updates to disk.
//!
//! A system call brackets its work with `begin_op` and `end_op`. Usually `begin_op` just
//! increments the count of calls in progress. But if it thinks the log is close to running out, it
//! asks its caller to sleep until the last outstanding `end_op` commits.
//!
//! The log is a physical re-do log containing disk blocks. The on-disk log format:
//!   header block, containing block numbers for block A, B, C, ...
//!   block A
//!   block B
//!   block C
//!   ...
use vstd::prelude::*;
use crate::buf::{BCache, Buf};
use crate::fs::SuperBlock;
use crate::le::{get_u32, lemma_u32_at, lemma_words_at, put_u32, splice, u32_at, u32_bytes, words};
use crate::param::{LOGBLOCKS, MAXOPBLOCKS, NBUF};
use crate::proc::Channel;
use crate::virtio_disk::{BlockId, Disk, BSIZE};

verus! {

/// How many buffers may be in use at once besides those that a full transaction pins.
pub const MAXHELD: usize = 8;

/// Contents of the header block, used for both the on-disk header block and to keep track in
/// memory of logged block numbers before commit.
#[derive(Debug, Clone, Copy)]
pub struct LogHeader {
    pub n: u32,
    pub blocks: [u32; LOGBLOCKS],
}

/// State of the log.
#[derive(Debug, Clone, Copy)]
pub struct LogInner {
    pub start: u32,
    pub size: u32,
    pub outstanding: u32,
    pub committing: bool,
    pub dev: u32,
    pub header: LogHeader,
}

/// The log.
#[derive(Debug)]
pub struct Log {
    pub inner: LogInner,
}

impl Log {
    /// The block numbers that the transaction has written so far.
    pub open spec fn logged(self) -> Seq<u32> {
        self.inner.header.blocks@.subrange(0, self.inner.header.n as int)
    }

    /// A log that is not set up yet.
    pub fn new() -> (r: Self)
        ensures
            r.inner.header.n == 0,
            r.inner.outstanding == 0,
            !r.inner.committing,
            r.inner.start == 0,
            r.inner.size == 0,
            r.inner.dev == 0,
    {
        Log {
            inner: LogInner {
                start: 0,
                size: 0,
                outstanding: 0,
                committing: false,
                dev: 0,
                header: LogHeader { n: 0, blocks: [0u32;LOGBLOCKS] },
            },
        }
    }
}

/// What the block layer holds, as its users see it.
#[verifier::ext_equal]
pub struct StoreState {
    /// The contents of every block: the cached copy, or else what is on the device.
    pub blocks: Map<BlockId, Seq<u8>>,
    /// The blocks that the running transaction has written.
    pub logged: Seq<u32>,
    /// The blocks whose buffers are handed out.
    pub held: Set<BlockId>,
    /// First block of the log area.
    pub start: u32,
    /// Number of blocks of the log area.
    pub size: u32,
    /// Device that the log is on.
    pub dev: u32,
    /// File system calls in progress.
    pub outstanding: u32,
    /// A commit is running.
    pub committing: bool,
}

impl StoreState {
    /// A buffer for `id` can be had: the block is not in use and buffers are left.
    pub open spec fn readable(self, id: BlockId) -> bool {
        &&& id != (0u32, 0u32)
        &&& !self.held.contains(id)
        &&& self.held.len() < MAXHELD
    }

    /// The transaction can take another write.
    pub open spec fn writable(self, id: BlockId) -> bool {
        &&& id.0 == self.dev
        &&& self.logged.len() < LOGBLOCKS
        &&& self.logged.len() + 1 < self.size
        &&& self.outstanding >= 1
    }

    /// The state after block `id` got the contents `data` as part of the transaction.
    pub open spec fn write(self, id: BlockId, data: Seq<u8>) -> StoreState {
        StoreState {
            blocks: self.blocks.insert(id, data),
            logged: if self.logged.contains(id.1) {
                self.logged
            } else {
                self.logged.push(id.1)
            },
            ..self
        }
    }

    /// No block of the transaction lies in the log area that the transaction needs.
    pub open spec fn log_apart(self) -> bool {
        forall|i: int|
            0 <= i < self.logged.len() ==> !(self.start <= #[trigger] self.logged[i] <= self.start
                + self.logged.len())
    }
}

/// The block layer: the cache, the device below it, and the log.
pub struct Store {
    pub bcache: BCache,
    pub disk: Disk,
    pub log: Log,
    /// The process on whose behalf buffers are locked.
    pub pid: u64,
    /// The blocks whose buffers the log has pinned.
    pub pinned: Ghost<Set<BlockId>>,
}

impl View for Store {
    type V = StoreState;

    open spec fn view(&self) -> StoreState {
        StoreState {
            blocks: Map::new(|id: BlockId| true, |id: BlockId| self.bcache.block(self.disk@, id)),
            logged: self.log.logged(),
            held: Set::new(|id: BlockId| self.holds(id)),
            start: self.log.inner.start,
            size: self.log.inner.size,
            dev: self.log.inner.dev,
            outstanding: self.log.inner.outstanding,
            committing: self.log.inner.committing,
        }
    }
}

impl Store {
    /// The buffer for `id` is at `i` and handed out.
    pub open spec fn holds_at(self, i: int, id: BlockId) -> bool {
        self.bcache.inner.has_at(i, id) && self.bcache.bufs@[i].inner.locked
    }

    /// The buffer for `id` is handed out.
    pub open spec fn holds(self, id: BlockId) -> bool {
        exists|i: int| self.holds_at(i, id)
    }

    /// `buf` was handed out and not released yet.
    pub open spec fn out(self, buf: Buf) -> bool {
        self.slots().contains_pair(buf.block@, buf.id as int)
    }

    /// Which buffer is handed out for which block.
    pub open spec fn slots(self) -> Map<BlockId, int> {
        Map::new(|id: BlockId| self.holds(id), |id: BlockId| self.bcache.inner.slot(id))
    }

    /// The counts and copies of buffer `i` agree with the pins and the device.
    pub open spec fn slot_ok(self, i: int) -> bool {
        let m = self.bcache.inner.meta@[i];
        let b = self.bcache.bufs@[i];
        let pin = self.pinned@.contains(m.id());
        &&& m.ref_count == (if b.inner.locked {
            1int
        } else {
            0
        }) + (if pin {
            1int
        } else {
            0
        })
        &&& m.valid && !pin ==> b.data.data@ == self.disk@[m.id()]
        &&& b.inner.locked || pin ==> m.valid
    }

    /// Between any two steps: counts, pins and copies are in order.
    pub open spec fn inv(self) -> bool {
        &&& self.bcache.wf()
        &&& forall|i: int| 0 <= i < NBUF ==> #[trigger] self.slot_ok(i)
        &&& self.pinned@.finite()
        &&& self.pinned@.len() <= LOGBLOCKS
        &&& forall|id: BlockId| #[trigger] self.pinned@.contains(id) ==> self.bcache.inner.has(id)
    }

    /// Between operations: the pins are those of the logged blocks.
    pub open spec fn wf(self) -> bool {
        let log = self.log.inner;
        &&& self.inv()
        &&& log.header.n <= LOGBLOCKS
        &&& log.header.n == 0 || log.header.n < log.size
        &&& log.start + log.size <= u32::MAX
        &&& self.log.logged().no_duplicates()
        &&& forall|id: BlockId| #[trigger]
            self.pinned@.contains(id) <==> id.0 == log.dev && self.log.logged().contains(id.1)
    }

    /// A cache over `disk` with a log that is not set up.
    pub fn new(disk: Disk, pid: u64) -> (r: Self)
        ensures
            r.wf(),
            r.disk == disk,
            r@.blocks == disk@,
            r@.logged.len() == 0,
            r@.held == Set::<BlockId>::empty(),
            r@.outstanding == 0,
            !r@.committing,
            r@.size == 0,
    {
        let r = Store {
            bcache: BCache::new(),
            disk,
            log: Log::new(),
            pid,
            pinned: Ghost(Set::empty()),
        };
        proof {
            assert forall|i: int| 0 <= i < NBUF implies #[trigger] r.slot_ok(i) by {
                assert(r.bcache.inner.meta@[i].id() == (0u32, 0u32));
                assert(!r.bcache.bufs@[i].inner.locked);
            }
            disk.lemma_total();
            assert(r@.blocks =~= disk@);
            assert(r@.held =~= Set::<BlockId>::empty()) by {
                assert forall|id: BlockId| !r.holds(id) by {
                    assert forall|i: int| !r.holds_at(i, id) by {
                        assert(0 <= i < NBUF ==> !r.bcache.bufs@[i].inner.locked);
                    }
                }
            }
        }
        r
    }

    /// Every block can be read, and is `BSIZE` bytes long.
    pub proof fn lemma_total(self)
        ensures
            forall|id: BlockId| #[trigger] self@.blocks.contains_key(id),
            forall|id: BlockId| (#[trigger] self@.blocks[id]).len() == BSIZE,
    {
        self.disk.lemma_total();
    }

    /// The cached copy at `i` is the contents of the block.
    proof fn lemma_block(self, i: int)
        requires
            self.bcache.wf(),
            0 <= i < NBUF,
            self.bcache.inner.meta@[i].valid,
        ensures
            self@.blocks[self.bcache.inner.meta@[i].id()] == self.bcache.bufs@[i].data.data@,
    {
        let id = self.bcache.inner.meta@[i].id();
        assert(self.bcache.valid_at(i, id));
        let j = choose|j: int| self.bcache.valid_at(j, id);
        assert(self.bcache.valid_at(j, id));
        assert(i == j);
    }

    /// A block without a valid copy has the contents that the device has.
    proof fn lemma_no_block(self, id: BlockId)
        requires
            forall|i: int| !self.bcache.valid_at(i, id),
        ensures
            self@.blocks[id] == self.disk@[id],
    {
    }

    /// A buffer that is handed out is locked and stands for its block.
    proof fn lemma_out(self, buf: Buf)
        requires
            self.inv(),
            self.out(buf),
        ensures
            buf.id < NBUF,
            self.bcache.bufs@[buf.id as int].inner.locked,
            self.bcache.inner.meta@[buf.id as int].id() == buf.block@,
            buf.block@ != (0u32, 0u32),
    {
        let id = buf.block@;
        let j = choose|j: int| self.holds_at(j, id);
        assert(self.holds_at(j, id));
        assert(self.bcache.bufs@[j].inner.locked);
        assert(self.bcache.inner.meta@[j].id() != (0u32, 0u32));
        self.bcache.inner.lemma_slot(j, id);
    }

    /// The buffers in use are few enough that another can be recycled.
    proof fn lemma_victim(self)
        requires
            self.inv(),
            self@.held.len() < MAXHELD,
        ensures
            self.bcache.inner.has_victim(),
    {
        let inner = self.bcache.inner;
        let o = inner.lru@;
        if !inner.has_victim() {
            let ids = Seq::new((NBUF - 1) as nat, |k: int| inner.meta@[o[k + 1] as int].id());
            assert forall|k: int| 0 <= k < NBUF - 1 implies self.pinned@.contains(
                #[trigger] ids[k],
            ) || self@.held.contains(ids[k]) by {
                let i = o[k + 1] as int;
                assert(inner.meta@[i].ref_count != 0);
                assert(self.slot_ok(i));
                if self.bcache.bufs@[i].inner.locked {
                    assert(self.holds_at(i, ids[k]));
                }
            }
            assert forall|k: int, l: int| 0 <= k < NBUF - 1 && 0 <= l < NBUF - 1 && k != l implies ids[k]
                != ids[l] by {
                assert(o[k + 1] != o[l + 1]);
                assert(inner.meta@[o[k + 1] as int].ref_count != 0);
                assert(inner.meta@[o[k + 1] as int].id() != (0u32, 0u32));
                assert(inner.meta@[o[l + 1] as int].id() != (0u32, 0u32));
            }
            ids.unique_seq_to_set();
            self.lemma_held_finite();
            let all = self.pinned@.union(self@.held);
            assert(ids.to_set().subset_of(all));
            vstd::set_lib::lemma_len_union(self.pinned@, self@.held);
            vstd::set_lib::lemma_len_subset(ids.to_set(), all);
        }
    }

    proof fn lemma_held_finite(self)
        ensures
            self@.held.finite(),
    {
        let ids = Seq::new(NBUF as nat, |i: int| self.bcache.inner.meta@[i].id());
        assert(self@.held.subset_of(ids.to_set())) by {
            assert forall|id: BlockId| self@.held.contains(id) implies ids.to_set().contains(id) by {
                let i = choose|i: int| self.holds_at(i, id);
                assert(ids[i] == id);
            }
        }
        vstd::set_lib::lemma_len_subset(self@.held, ids.to_set());
    }

    /// Hands out the buffer of a block, with the block's contents.
    pub fn bread(&mut self, dev: u32, block_no: u32) -> (r: Buf)
        requires
            old(self).inv(),
            old(self)@.readable((dev, block_no)),
        ensures
            final(self).inv(),
            final(self).log == old(self).log,
            final(self).pinned == old(self).pinned,
            final(self).disk@ == old(self).disk@,
            final(self).disk.writes() == old(self).disk.writes(),
            final(self)@ == (StoreState {
                held: old(self)@.held.insert((dev, block_no)),
                ..old(self)@
            }),
            final(self).out(r),
            r.block@ == (dev, block_no),
            r.bytes() == old(self)@.blocks[(dev, block_no)],
            final(self).slots() == old(self).slots().insert((dev, block_no), r.id as int),
    {
        let ghost id = (dev, block_no);
        let ghost s0 = *self;
        proof {
            self.lemma_victim();
            if self.bcache.inner.has(id) {
                let j = choose|j: int| self.bcache.inner.has_at(j, id);
                self.bcache.inner.lemma_has(j, id);
                let i = self.bcache.inner.slot(id);
                assert(self.bcache.inner.has_at(i, id));
                assert(self.slot_ok(i));
                assert(!self.holds_at(i, id));
            }
        }
        let r = self.bcache.read(&mut self.disk, dev, block_no, self.pid);
        let ghost i = self.bcache.inner.slot(id);
        proof {
            assert(self.bcache.inner.has_at(i, id));
            assert(!s0.bcache.bufs@[i].inner.locked) by {
                assert(s0.slot_ok(i));
                if s0.bcache.inner.has(id) {
                    assert(s0.bcache.inner.has_at(s0.bcache.inner.slot(id), id));
                    assert(!s0.holds_at(i, id));
                }
            }
            assert(r is Some);
            assert forall|j: int| 0 <= j < NBUF implies #[trigger] self.slot_ok(j) by {
                assert(s0.slot_ok(j));
                if j == i && !s0.bcache.inner.has(id) {
                    assert(!s0.pinned@.contains(id));
                }
            }
            assert forall|d: BlockId| #[trigger] self.pinned@.contains(d) implies self.bcache.inner.has(d) by {
                let j = choose|j: int| s0.bcache.inner.has_at(j, d);
                assert(s0.bcache.inner.has_at(j, d));
                assert(s0.slot_ok(j));
                assert(s0.bcache.inner.meta@[j].ref_count > 0);
                assert(self.bcache.inner.has_at(j, d));
            }
            // contents
            assert forall|d: BlockId| #[trigger] self@.blocks[d] == s0@.blocks[d] by {
                if d == id {
                    self.lemma_block(i);
                    if s0.bcache.inner.has(id) && s0.bcache.inner.meta@[i].valid {
                        s0.lemma_block(i);
                    } else {
                        assert forall|j: int| !s0.bcache.valid_at(j, id) by {
                            if s0.bcache.valid_at(j, id) {
                                assert(s0.bcache.inner.has_at(j, id));
                                s0.bcache.inner.lemma_slot(j, id);
                            }
                        }
                        s0.lemma_no_block(id);
                    }
                } else if exists|j: int| s0.bcache.valid_at(j, d) {
                    let j = choose|j: int| s0.bcache.valid_at(j, d);
                    assert(s0.bcache.valid_at(j, d));
                    s0.lemma_block(j);
                    if j == i {
                        assert(s0.slot_ok(i));
                        assert forall|l: int| !self.bcache.valid_at(l, d) by {
                            if self.bcache.valid_at(l, d) {
                                assert(s0.bcache.valid_at(l, d));
                            }
                        }
                        self.lemma_no_block(d);
                    } else {
                        self.lemma_block(j);
                    }
                } else {
                    assert forall|l: int| !self.bcache.valid_at(l, d) by {
                        if self.bcache.valid_at(l, d) {
                            assert(l != i);
                            assert(s0.bcache.valid_at(l, d));
                        }
                    }
                    s0.lemma_no_block(d);
                    self.lemma_no_block(d);
                }
            }
            assert(self@.blocks =~= s0@.blocks);
            assert(self@.held =~= s0@.held.insert(id)) by {
                assert forall|d: BlockId| self@.held.contains(d) <==> s0@.held.insert(id).contains(
                    d,
                ) by {
                    if self.holds(d) {
                        let j = choose|j: int| self.holds_at(j, d);
                        assert(self.holds_at(j, d));
                        if j != i {
                            assert(s0.holds_at(j, d));
                        }
                    }
                    if s0.holds(d) {
                        let j = choose|j: int| s0.holds_at(j, d);
                        assert(s0.holds_at(j, d));
                        assert(self.holds_at(j, d));
                    }
                    assert(self.holds_at(i, id));
                }
            }
            self.lemma_block(i);
            self.bcache.inner.lemma_slot(i, id);
            assert(self.slots() =~= s0.slots().insert(id, i)) by {
                assert forall|d: BlockId| #[trigger] s0.slots().contains_key(d) implies self.slots()[d]
                    == s0.slots().insert(id, i)[d] by {
                    lemma_slot_kept(s0, *self, d);
                }
                assert(self.slots().dom() =~= self@.held);
                assert(s0.slots().dom() =~= s0@.held);
            }
        }
        r.unwrap()
    }

    /// Takes a buffer back whose changes, if any, were written.
    pub fn brelse(&mut self, buf: Buf)
        requires
            old(self).inv(),
            old(self).out(buf),
            buf.bytes() == old(self)@.blocks[buf.block@],
        ensures
            final(self).inv(),
            final(self).log == old(self).log,
            final(self).pinned == old(self).pinned,
            final(self).disk == old(self).disk,
            final(self)@ == (StoreState {
                held: old(self)@.held.remove(buf.block@),
                ..old(self)@
            }),
            final(self).slots() == old(self).slots().remove(buf.block@),
    {
        let ghost s0 = *self;
        let ghost i = buf.id as int;
        let ghost id = buf.block@;
        proof {
            self.lemma_out(buf);
            assert(self.slot_ok(i));
            self.lemma_block(i);
        }
        self.bcache.release(buf);
        proof {
            assert forall|j: int| 0 <= j < NBUF implies #[trigger] self.slot_ok(j) by {
                assert(s0.slot_ok(j));
                assert(self.bcache.inner.meta@[j].id() == s0.bcache.inner.meta@[j].id());
            }
            assert forall|d: BlockId| #[trigger] self.pinned@.contains(d) implies self.bcache.inner.has(d) by {
                let j = choose|j: int| s0.bcache.inner.has_at(j, d);
                assert(s0.bcache.inner.has_at(j, d));
                assert(self.bcache.inner.has_at(j, d));
            }
            lemma_same_blocks(s0, *self);
            assert(self@.held =~= s0@.held.remove(id)) by {
                assert forall|d: BlockId| self@.held.contains(d) <==> s0@.held.remove(id).contains(
                    d,
                ) by {
                    if self.holds(d) {
                        let j = choose|j: int| self.holds_at(j, d);
                        assert(self.holds_at(j, d));
                        assert(s0.holds_at(j, d));
                        if d == id {
                            assert(s0.bcache.inner.meta@[i].ref_count > 0);
                            assert(s0.bcache.inner.meta@[i].id() != (0u32, 0u32));
                            assert(s0.bcache.inner.meta@[j].id() == s0.bcache.inner.meta@[i].id());
                        }
                    }
                    if s0.holds(d) && d != id {
                        let j = choose|j: int| s0.holds_at(j, d);
                        assert(s0.holds_at(j, d));
                        assert(self.holds_at(j, d));
                    }
                }
            }
            assert(self.slots() =~= s0.slots().remove(id)) by {
                assert forall|d: BlockId| #[trigger] s0.slots().remove(id).contains_key(d) implies self.slots()[d]
                    == s0.slots()[d] by {
                    lemma_slot_kept(s0, *self, d);
                }
                assert(self.slots().dom() =~= self@.held);
                assert(s0.slots().dom() =~= s0@.held);
            }
        }
    }

    /// Writes a buffer through to the device.
    fn bwrite(&mut self, buf: &mut Buf)
        requires
            old(self).inv(),
            old(self).out(*old(buf)),
        ensures
            final(self).inv(),
            *final(buf) == *old(buf),
            final(self).log == old(self).log,
            final(self).pinned == old(self).pinned,
            final(self).disk@ == old(self).disk@.insert(
                old(buf).block@,
                old(buf).bytes(),
            ),
            final(self).disk.writes() == old(self).disk.writes().push(
                (old(buf).block@, old(buf).bytes()),
            ),
            final(self)@ == (StoreState {
                blocks: old(self)@.blocks.insert(old(buf).block@, old(buf).bytes()),
                ..old(self)@
            }),
            final(self).slots() == old(self).slots(),
    {
        let ghost s0 = *self;
        let ghost i = buf.id as int;
        let ghost id = buf.block@;
        proof {
            self.lemma_out(*buf);
            assert(self.slot_ok(i));
            assert(s0.bcache.inner.meta@[i].ref_count > 0);
            assert(id != (0u32, 0u32));
        }
        self.bcache.write(&mut self.disk, buf);
        proof {
            assert forall|j: int| 0 <= j < NBUF implies #[trigger] self.slot_ok(j) by {
                assert(s0.slot_ok(j));
                if j != i {
                    assert(s0.bcache.inner.meta@[j].id() != id);
                }
            }
            assert forall|d: BlockId| #[trigger] self.pinned@.contains(d) implies self.bcache.inner.has(d) by {
                assert(s0.bcache.inner.has(d));
            }
            s0.lemma_total();
            self.lemma_total();
            assert forall|d: BlockId| #[trigger] self@.blocks[d] == s0@.blocks.insert(
                id,
                buf.bytes(),
            )[d] by {
                lemma_poke(s0, *self, i, d);
            }
            assert(self@.blocks =~= s0@.blocks.insert(id, buf.bytes()));
            lemma_same_held(s0, *self);
        }
    }
}

/// Equal identities, validity and copies mean equal contents.
proof fn lemma_same_blocks(s0: Store, s1: Store)
    requires
        s0.bcache.wf(),
        s1.bcache.wf(),
        s0.disk@ == s1.disk@,
        forall|j: int|
            0 <= j < NBUF ==> (#[trigger] s1.bcache.inner.meta@[j]).id() == s0.bcache.inner.meta@[j].id()
                && s1.bcache.inner.meta@[j].valid == s0.bcache.inner.meta@[j].valid,
        forall|j: int|
            0 <= j < NBUF && s0.bcache.inner.meta@[j].valid ==> (#[trigger] s1.bcache.bufs@[j]).data.data@
                == s0.bcache.bufs@[j].data.data@,
    ensures
        s1@.blocks == s0@.blocks,
{
    assert forall|d: BlockId| #[trigger] s1@.blocks[d] == s0@.blocks[d] by {
        if exists|j: int| s0.bcache.valid_at(j, d) {
            let j = choose|j: int| s0.bcache.valid_at(j, d);
            assert(s0.bcache.valid_at(j, d));
            s0.lemma_block(j);
            assert(s1.bcache.inner.meta@[j].valid);
            s1.lemma_block(j);
        } else {
            assert forall|l: int| !s1.bcache.valid_at(l, d) by {
                if s1.bcache.valid_at(l, d) {
                    assert(s0.bcache.valid_at(l, d));
                }
            }
            s0.lemma_no_block(d);
            s1.lemma_no_block(d);
        }
    }
    assert(s1@.blocks =~= s0@.blocks);
}

/// A buffer that stays handed out stays at its place.
proof fn lemma_slot_kept(s0: Store, s1: Store, d: BlockId)
    requires
        s0.bcache.wf(),
        s1.bcache.wf(),
        s0.holds(d),
        forall|j: int| s0.holds_at(j, d) ==> #[trigger] s1.holds_at(j, d),
    ensures
        s1.slots()[d] == s0.slots()[d],
{
    let j = choose|j: int| s0.holds_at(j, d);
    assert(s0.holds_at(j, d));
    assert(s1.holds_at(j, d));
    assert(s0.bcache.bufs@[j].inner.locked);
    assert(s0.bcache.inner.meta@[j].id() != (0u32, 0u32));
    s0.bcache.inner.lemma_slot(j, d);
    s1.bcache.inner.lemma_slot(j, d);
}

/// Equal identities and locks mean the same blocks in use.
proof fn lemma_same_held(s0: Store, s1: Store)
    requires
        s0.bcache.wf(),
        s1.bcache.wf(),
        forall|j: int|
            0 <= j < NBUF ==> (#[trigger] s1.bcache.inner.meta@[j]).id()
                == s0.bcache.inner.meta@[j].id(),
        forall|j: int|
            0 <= j < NBUF ==> (#[trigger] s1.bcache.bufs@[j]).inner.locked
                == s0.bcache.bufs@[j].inner.locked,
    ensures
        s1@.held == s0@.held,
        s1.slots() == s0.slots(),
{
    assert forall|d: BlockId| s1@.held.contains(d) <==> s0@.held.contains(d) by {
        if s1.holds(d) {
            let j = choose|j: int| s1.holds_at(j, d);
            assert(s1.holds_at(j, d));
            assert(s0.holds_at(j, d));
        }
        if s0.holds(d) {
            let j = choose|j: int| s0.holds_at(j, d);
            assert(s0.holds_at(j, d));
            assert(s1.holds_at(j, d));
        }
    }
    assert(s1@.held =~= s0@.held);
    assert(s1.slots() =~= s0.slots()) by {
        assert forall|d: BlockId| #[trigger] s0.slots().contains_key(d) implies s1.slots()[d]
            == s0.slots()[d] by {
            assert forall|j: int| s0.holds_at(j, d) implies #[trigger] s1.holds_at(j, d) by {}
            lemma_slot_kept(s0, s1, d);
        }
        assert(s1.slots().dom() =~= s1@.held);
        assert(s0.slots().dom() =~= s0@.held);
    }
}

/// Only the copy at `i` changed, and on the device only its block.
proof fn lemma_poke(s0: Store, s1: Store, i: int, d: BlockId)
    requires
        s0.bcache.wf(),
        s1.bcache.wf(),
        0 <= i < NBUF,
        s0.bcache.inner.meta@[i].valid,
        s1.bcache.inner.meta@.len() == NBUF,
        forall|j: int|
            0 <= j < NBUF ==> (#[trigger] s1.bcache.inner.meta@[j]).id() == s0.bcache.inner.meta@[j].id()
                && s1.bcache.inner.meta@[j].valid == s0.bcache.inner.meta@[j].valid,
        forall|j: int|
            0 <= j < NBUF && j != i ==> #[trigger] s1.bcache.bufs@[j].data == s0.bcache.bufs@[j].data,
        forall|e: BlockId|
            e != s0.bcache.inner.meta@[i].id() ==> #[trigger] s1.disk@[e] == s0.disk@[e],
    ensures
        s1@.blocks[d] == (if d == s0.bcache.inner.meta@[i].id() {
            s1.bcache.bufs@[i].data.data@
        } else {
            s0@.blocks[d]
        }),
{
    if d == s0.bcache.inner.meta@[i].id() {
        s1.lemma_block(i);
    } else if exists|j: int| s0.bcache.valid_at(j, d) {
        let j = choose|j: int| s0.bcache.valid_at(j, d);
        assert(s0.bcache.valid_at(j, d));
        s0.lemma_block(j);
        assert(s1.bcache.inner.meta@[j].valid);
        s1.lemma_block(j);
    } else {
        assert forall|l: int| !s1.bcache.valid_at(l, d) by {
            if s1.bcache.valid_at(l, d) {
                assert(s0.bcache.valid_at(l, d));
            }
        }
        s0.lemma_no_block(d);
        s1.lemma_no_block(d);
    }
}

/// Records that the caller changed `buf` as part of the transaction. The block is pinned in the
/// cache until `commit` writes it to the disk; writing a block twice in one transaction takes
/// only one place in the log.
pub fn write(store: &mut Store, buf: &Buf)
    requires
        old(store).wf(),
        old(store).out(*buf),
        old(store)@.writable(buf.block@),
    ensures
        final(store).wf(),
        final(store)@ == old(store)@.write(buf.block@, buf.bytes()),
        final(store).disk == old(store).disk,
        final(store).slots() == old(store).slots(),
{
    let ghost s0 = *store;
    let ghost bi = buf.id as int;
    let ghost id = buf.block@;
    proof {
        store.lemma_out(*buf);
        assert(store.slot_ok(bi));
        assert(s0.bcache.inner.meta@[bi].ref_count > 0);
        assert(id != (0u32, 0u32));
    }
    let block_no = store.bcache.inner.meta[buf.id].block_no;
    let n = store.log.inner.header.n;
    store.bcache.bufs[buf.id].data = buf.guard.data;
    let mut i: usize = 0;
    let ghost logged = s0.log.logged();
    while i < n as usize && store.log.inner.header.blocks[i] != block_no
        invariant
            i <= n,
            n <= LOGBLOCKS,
            n == store.log.inner.header.n,
            logged == store.log.logged(),
            forall|j: int| 0 <= j < i ==> logged[j] != block_no,
        decreases n - i,
    {
        assert(logged[i as int] == store.log.inner.header.blocks@[i as int]);
        i += 1;
    }
    store.log.inner.header.blocks[i] = block_no;
    if i == n as usize {
        assert(!logged.contains(block_no));
        assert(store.bcache.wf());
        store.bcache.pin(buf);
        store.log.inner.header.n = n + 1;
        proof {
            store.pinned@ = store.pinned@.insert(id);
            assert(store.log.logged() =~= logged.push(block_no));
            assert(!s0.pinned@.contains(id));
            lemma_pin_count(s0);
            assert forall|d: BlockId| store.pinned@.contains(d) <==> d.0 == store.log.inner.dev
                && logged.push(block_no).contains(d.1) by {
                if logged.contains(d.1) {
                    let j = logged.index_of(d.1);
                    assert(logged.push(block_no)[j] == d.1);
                }
                assert(logged.push(block_no)[n as int] == block_no);
            }
        }
    } else {
        proof {
            assert(logged[i as int] == block_no);
            assert(store.log.inner.header.blocks@ =~= s0.log.inner.header.blocks@);
            assert(store.log.logged() =~= logged);
            assert(s0.pinned@.contains(id));
            assert(logged.contains(block_no));
        }
    }
    proof {
        assert forall|j: int| 0 <= j < NBUF implies #[trigger] store.slot_ok(j) by {
            assert(s0.slot_ok(j));
            if j != bi {
                assert(s0.bcache.inner.meta@[j].id() != id);
            }
        }
        assert forall|d: BlockId| #[trigger] store.pinned@.contains(d) implies store.bcache.inner.has(d) by {
            if d == id {
                assert(store.bcache.inner.has_at(bi, id));
            } else {
                let j = choose|j: int| s0.bcache.inner.has_at(j, d);
                assert(s0.bcache.inner.has_at(j, d));
                assert(store.bcache.inner.has_at(j, d));
            }
        }
        s0.lemma_total();
        store.lemma_total();
        assert forall|d: BlockId| #[trigger] store@.blocks[d] == s0@.blocks.insert(
            id,
            buf.bytes(),
        )[d] by {
            lemma_poke(s0, *store, bi, d);
        }
        assert(store@.blocks =~= s0@.blocks.insert(id, buf.bytes()));
        lemma_same_held(s0, *store);
    }
}

/// There are as many pins as logged blocks.
proof fn lemma_pin_count(s: Store)
    requires
        s.wf(),
    ensures
        s.pinned@.len() == s.log.logged().len(),
{
    let logged = s.log.logged();
    let ids = Seq::new(logged.len(), |i: int| (s.log.inner.dev, logged[i]));
    assert(ids.no_duplicates());
    ids.unique_seq_to_set();
    assert(ids.to_set() =~= s.pinned@) by {
        assert forall|d: BlockId| ids.to_set().contains(d) <==> s.pinned@.contains(d) by {
            if s.pinned@.contains(d) {
                let j = logged.index_of(d.1);
                assert(ids[j] == d);
            }
        }
    }
}

/// The header block `old` with the block numbers `hs` in it.
pub open spec fn put_header(old: Seq<u8>, hs: Seq<u32>) -> Seq<u8> {
    splice(old, 0, u32_bytes(hs.len() as u32) + words(hs))
}

/// The block numbers in the header block `h`.
pub open spec fn header_of(h: Seq<u8>) -> Seq<u32> {
    Seq::new(u32_at(h, 0) as nat, |i: int| u32_at(h, 4 + 4 * i))
}

/// `blocks` after the first `k` logged blocks were copied from the log to their home.
pub open spec fn installed(
    blocks: Map<BlockId, Seq<u8>>,
    dev: u32,
    start: u32,
    logged: Seq<u32>,
    k: nat,
) -> Map<BlockId, Seq<u8>>
    decreases k,
{
    if k == 0 {
        blocks
    } else {
        let b = installed(blocks, dev, start, logged, (k - 1) as nat);
        b.insert((dev, logged[k - 1]), b[(dev, (start + k) as u32)])
    }
}

/// What recovery makes of `disk`: the blocks of a committed transaction go home and the log is
/// cleared.
pub open spec fn recovered(disk: Map<BlockId, Seq<u8>>, dev: u32, start: u32) -> Map<
    BlockId,
    Seq<u8>,
> {
    let h = disk[(dev, start)];
    let d = installed(disk, dev, start, header_of(h), header_of(h).len());
    d.insert((dev, start), put_header(d[(dev, start)], seq![]))
}

/// `disk` after the writes `w`.
pub open spec fn apply(disk: Map<BlockId, Seq<u8>>, w: Seq<(BlockId, Seq<u8>)>) -> Map<
    BlockId,
    Seq<u8>,
>
    decreases w.len(),
{
    if w.len() == 0 {
        disk
    } else {
        apply(disk, w.drop_last()).insert(w.last().0, w.last().1)
    }
}

impl StoreState {
    /// The contents of the `i`th block of the transaction.
    pub open spec fn logged_data(self, i: int) -> Seq<u8> {
        self.blocks[(self.dev, self.logged[i])]
    }

    /// The writes that copy the transaction to the log.
    pub open spec fn log_writes(self) -> Seq<(BlockId, Seq<u8>)> {
        Seq::new(
            self.logged.len(),
            |i: int| ((self.dev, (self.start + 1 + i) as u32), self.logged_data(i)),
        )
    }

    /// The header block of the transaction.
    pub open spec fn head_block(self) -> Seq<u8> {
        put_header(self.blocks[(self.dev, self.start)], self.logged)
    }

    /// The writes that copy the transaction to the blocks' homes.
    pub open spec fn home_writes(self) -> Seq<(BlockId, Seq<u8>)> {
        Seq::new(self.logged.len(), |i: int| ((self.dev, self.logged[i]), self.logged_data(i)))
    }

    /// Everything that a commit writes to the device, in order: the log, the header (which is
    /// the point of commit), the blocks' homes, and the cleared header.
    pub open spec fn commit_writes(self) -> Seq<(BlockId, Seq<u8>)> {
        if self.logged.len() == 0 {
            seq![]
        } else {
            self.log_writes().push(((self.dev, self.start), self.head_block()))
                + self.home_writes().push(
                ((self.dev, self.start), put_header(self.head_block(), seq![])),
            )
        }
    }

    /// The state after a commit: the log is empty, and the log area holds the transaction.
    pub open spec fn committed(self) -> StoreState {
        StoreState {
            blocks: apply(self.blocks, self.commit_writes()),
            logged: seq![],
            ..self
        }
    }

    /// A commit can run: the log area is apart from the blocks of the transaction and no buffer
    /// is in use.
    pub open spec fn can_commit(self) -> bool {
        &&& self.held == Set::<BlockId>::empty()
        &&& self.log_apart()
        &&& (self.dev, self.start) != (0u32, 0u32)
        &&& forall|i: int| 0 <= i < self.logged.len() ==> (self.dev, #[trigger] self.logged[i]) != (
            0u32,
            0u32,
        )
    }
}

proof fn lemma_apply_push(
    disk: Map<BlockId, Seq<u8>>,
    w: Seq<(BlockId, Seq<u8>)>,
    x: (BlockId, Seq<u8>),
)
    ensures
        apply(disk, w.push(x)) == apply(disk, w).insert(x.0, x.1),
{
    assert(w.push(x).drop_last() =~= w);
}

impl Log {
    /// Writes the in-memory log header to disk.
    /// This is the true point at which the current transaction commits.
    fn write_head(store: &mut Store)
        requires
            old(store).inv(),
            old(store)@.held == Set::<BlockId>::empty(),
            old(store).log.inner.header.n <= LOGBLOCKS,
            (old(store)@.dev, old(store)@.start) != (0u32, 0u32),
        ensures
            final(store).inv(),
            final(store).log == old(store).log,
            final(store).pinned == old(store).pinned,
            final(store)@ == (StoreState {
                blocks: old(store)@.blocks.insert(
                    (old(store)@.dev, old(store)@.start),
                    old(store)@.head_block(),
                ),
                ..old(store)@
            }),
            final(store).disk@ == old(store).disk@.insert(
                (old(store)@.dev, old(store)@.start),
                old(store)@.head_block(),
            ),
            final(store).disk.writes() == old(store).disk.writes().push(
                ((old(store)@.dev, old(store)@.start), old(store)@.head_block()),
            ),
    {
        let dev = store.log.inner.dev;
        let start = store.log.inner.start;
        let ghost s0 = store@;
        let mut buf = store.bread(dev, start);
        let n = store.log.inner.header.n;
        let ghost hs = s0.logged;
        let ghost h0 = buf.bytes();
        let ghost s1 = *store;
        proof {
            s1.lemma_total();
        }
        put_u32(buf.data_mut(), 0, n);
        let mut i: usize = 0;
        while i < n as usize
            invariant
                i <= n <= LOGBLOCKS,
                n == store.log.inner.header.n,
                hs == store.log.logged(),
                hs.len() == n,
                *store == s1,
                store.out(buf),
                buf.block@ == (dev, start),
                h0.len() == BSIZE,
                buf.bytes() == splice(h0, 0, u32_bytes(n) + words(hs.take(i as int))),
            decreases n - i,
        {
            let b = store.log.inner.header.blocks[i];
            put_u32(buf.data_mut(), 4 + 4 * i, b);
            proof {
                assert(b == hs[i as int]);
                assert(buf.bytes() =~= splice(h0, 0, u32_bytes(n) + words(hs.take(i + 1)))) by {
                    assert forall|j: int| 0 <= j < BSIZE implies #[trigger] buf.bytes()[j] == splice(
                        h0,
                        0,
                        u32_bytes(n) + words(hs.take(i + 1)),
                    )[j] by {
                        if 4 <= j < 4 + 4 * i {
                            assert(words(hs.take(i + 1))[j - 4] == words(hs.take(i as int))[j - 4]);
                        }
                    }
                }
            }
            i += 1;
        }
        proof {
            assert(hs.take(n as int) =~= hs);
            assert(buf.bytes() == s0.head_block());
        }
        store.bwrite(&mut buf);
        store.brelse(buf);
        proof {
            assert(store@.held =~= Set::<BlockId>::empty());
        }
    }

    /// Copies modified blocks from the cache to the log.
    fn write_log(store: &mut Store)
        requires
            old(store).wf(),
            old(store)@.can_commit(),
        ensures
            final(store).wf(),
            final(store).log == old(store).log,
            final(store).pinned == old(store).pinned,
            final(store)@ == (StoreState {
                blocks: apply(old(store)@.blocks, old(store)@.log_writes()),
                ..old(store)@
            }),
            final(store).disk@ == apply(old(store).disk@, old(store)@.log_writes()),
            final(store).disk.writes() == old(store).disk.writes() + old(store)@.log_writes(),
    {
        let ghost s0 = *store;
        let ghost v0 = store@;
        let dev = store.log.inner.dev;
        let start = store.log.inner.start;
        let n = store.log.inner.header.n;
        let ghost w = v0.log_writes();
        let mut tail: u32 = 0;
        proof {
            assert(w.take(0) =~= seq![]);
            assert(s0.disk.writes() + w.take(0) =~= s0.disk.writes());
        }
        while tail < n
            invariant
                tail <= n <= LOGBLOCKS,
                store.wf(),
                s0.wf(),
                v0 == s0@,
                v0.can_commit(),
                w == v0.log_writes(),
                n == v0.logged.len(),
                dev == v0.dev,
                start == v0.start,
                store.log == s0.log,
                store.pinned == s0.pinned,
                store@ == (StoreState { blocks: apply(v0.blocks, w.take(tail as int)), ..v0 }),
                store.disk@ == apply(s0.disk@, w.take(tail as int)),
                store.disk.writes() == s0.disk.writes() + w.take(tail as int),
            decreases n - tail,
        {
            let block = store.log.inner.header.blocks[tail as usize];
            proof {
                assert(block == v0.logged[tail as int]);
                lemma_log_writes_frame(v0, tail as int, block);
            }
            let mut to = store.bread(dev, start + tail + 1);
            let from = store.bread(dev, block);
            *to.data_mut() = *from.data();
            store.bwrite(&mut to);
            proof {
                assert(to.bytes() == v0.logged_data(tail as int));
                assert(w.take(tail + 1) =~= w.take(tail as int).push(w[tail as int]));
                lemma_apply_push(v0.blocks, w.take(tail as int), w[tail as int]);
                lemma_apply_push(s0.disk@, w.take(tail as int), w[tail as int]);
            }
            store.brelse(to);
            store.brelse(from);
            tail += 1;
            proof {
                assert(store@.held =~= Set::<BlockId>::empty());
                assert(store.disk.writes() =~= s0.disk.writes() + w.take(tail as int));
            }
        }
        proof {
            assert(w.take(n as int) =~= w);
        }
    }
}

/// The log area is apart from the transaction, so copying to it leaves the transaction alone.
proof fn lemma_log_writes_frame(s: StoreState, k: int, b: u32)
    requires
        s.log_apart(),
        0 <= k <= s.logged.len(),
        s.start + s.logged.len() <= u32::MAX,
        !(s.start <= b <= s.start + s.logged.len()),
    ensures
        apply(s.blocks, s.log_writes().take(k))[(s.dev, b)] == s.blocks[(s.dev, b)],
    decreases k,
{
    let w = s.log_writes();
    if k > 0 {
        lemma_log_writes_frame(s, k - 1, b);
        assert(w.take(k).drop_last() =~= w.take(k - 1));
    }
}

/// The writes that copy the first `k` logged blocks home, when the store holds `blocks`.
pub open spec fn install_writes(
    blocks: Map<BlockId, Seq<u8>>,
    dev: u32,
    start: u32,
    logged: Seq<u32>,
    k: nat,
) -> Seq<(BlockId, Seq<u8>)> {
    Seq::new(
        k,
        |i: int|
            (
                (dev, logged[i]),
                installed(blocks, dev, start, logged, i as nat)[(dev, (start + 1 + i) as u32)],
            ),
    )
}

/// The copies can be made: no block is its own place in the log.
pub open spec fn installable(dev: u32, start: u32, logged: Seq<u32>) -> bool {
    &&& start + logged.len() <= u32::MAX
    &&& (dev, start) != (0u32, 0u32)
    &&& forall|i: int|
        0 <= i < logged.len() ==> #[trigger] logged[i] != start + 1 + i && (dev, logged[i]) != (
            0u32,
            0u32,
        )
}

impl Log {
    /// Copies committed blocks from the log to their home location.
    fn install_trans(store: &mut Store, recovering: bool)
        requires
            old(store).inv(),
            old(store).log.inner.header.n <= LOGBLOCKS,
            old(store)@.held == Set::<BlockId>::empty(),
            installable(old(store)@.dev, old(store)@.start, old(store)@.logged),
            !recovering ==> old(store)@.logged.no_duplicates() && forall|id: BlockId| #[trigger]
                old(store).pinned@.contains(id) <==> id.0 == old(store)@.dev
                    && old(store)@.logged.contains(id.1),
            recovering ==> old(store).pinned@ == Set::<BlockId>::empty(),
        ensures
            final(store).inv(),
            final(store).log == old(store).log,
            final(store).pinned@ == Set::<BlockId>::empty(),
            final(store)@ == (StoreState {
                blocks: installed(
                    old(store)@.blocks,
                    old(store)@.dev,
                    old(store)@.start,
                    old(store)@.logged,
                    old(store)@.logged.len(),
                ),
                ..old(store)@
            }),
            final(store).disk@ == apply(
                old(store).disk@,
                install_writes(
                    old(store)@.blocks,
                    old(store)@.dev,
                    old(store)@.start,
                    old(store)@.logged,
                    old(store)@.logged.len(),
                ),
            ),
            final(store).disk.writes() == old(store).disk.writes() + install_writes(
                old(store)@.blocks,
                old(store)@.dev,
                old(store)@.start,
                old(store)@.logged,
                old(store)@.logged.len(),
            ),
    {
        let ghost s0 = *store;
        let ghost v0 = store@;
        let dev = store.log.inner.dev;
        let start = store.log.inner.start;
        let n = store.log.inner.header.n;
        let ghost w = install_writes(v0.blocks, dev, start, v0.logged, n as nat);
        let mut tail: u32 = 0;
        proof {
            assert(w.take(0) =~= seq![]);
            assert(s0.disk.writes() + w.take(0) =~= s0.disk.writes());
        }
        while tail < n
            invariant
                tail <= n <= LOGBLOCKS,
                store.inv(),
                v0 == s0@,
                v0.held == Set::<BlockId>::empty(),
                w == install_writes(v0.blocks, dev, start, v0.logged, n as nat),
                n == v0.logged.len(),
                n == s0.log.inner.header.n,
                dev == v0.dev,
                start == v0.start,
                installable(dev, start, v0.logged),
                store.log == s0.log,
                !recovering ==> v0.logged.no_duplicates() && forall|id: BlockId| #[trigger]
                    store.pinned@.contains(id) <==> id.0 == dev && exists|j: int|
                        tail <= j < n && #[trigger] v0.logged[j] == id.1,
                recovering ==> store.pinned@ == Set::<BlockId>::empty(),
                store@ == (StoreState {
                    blocks: installed(v0.blocks, dev, start, v0.logged, tail as nat),
                    ..v0
                }),
                store.disk@ == apply(s0.disk@, w.take(tail as int)),
                store.disk.writes() == s0.disk.writes() + w.take(tail as int),
            decreases n - tail,
        {
            let block = store.log.inner.header.blocks[tail as usize];
            assert(block == v0.logged[tail as int]);
            let lbuf = store.bread(dev, start + tail + 1);
            let mut dbuf = store.bread(dev, block);
            *dbuf.data_mut() = *lbuf.data();
            store.bwrite(&mut dbuf);
            proof {
                assert(dbuf.bytes() == w[tail as int].1);
                assert(w.take(tail + 1) =~= w.take(tail as int).push(w[tail as int]));
                lemma_apply_push(s0.disk@, w.take(tail as int), w[tail as int]);
            }
            if !recovering {
                assert(store.pinned@.contains((dev, block)));
                store.unpin(&dbuf);
            }
            store.brelse(lbuf);
            store.brelse(dbuf);
            tail += 1;
            proof {
                assert(store@.held =~= Set::<BlockId>::empty());
                assert(store.disk.writes() =~= s0.disk.writes() + w.take(tail as int));
            }
        }
        proof {
            assert(w.take(n as int) =~= w);
            assert(store.pinned@ =~= Set::<BlockId>::empty());
        }
    }

    /// Reads the log header from disk into the in-memory log header.
    fn read_head(store: &mut Store)
        requires
            old(store).inv(),
            old(store)@.held == Set::<BlockId>::empty(),
            (old(store)@.dev, old(store)@.start) != (0u32, 0u32),
            u32_at(old(store)@.blocks[(old(store)@.dev, old(store)@.start)], 0) <= LOGBLOCKS,
        ensures
            final(store).inv(),
            final(store).pinned == old(store).pinned,
            final(store).disk@ == old(store).disk@,
            final(store).disk.writes() == old(store).disk.writes(),
            final(store).log.inner.header.n <= LOGBLOCKS,
            final(store)@ == (StoreState {
                logged: header_of(old(store)@.blocks[(old(store)@.dev, old(store)@.start)]),
                ..old(store)@
            }),
    {
        let dev = store.log.inner.dev;
        let start = store.log.inner.start;
        proof {
            store.lemma_total();
        }
        let buf = store.bread(dev, start);
        let ghost s1 = *store;
        let ghost h = buf.bytes();
        let n = get_u32(buf.data(), 0);
        store.log.inner.header.n = n;
        let mut i: usize = 0;
        while i < n as usize
            invariant
                i <= n <= LOGBLOCKS,
                h == buf.bytes(),
                h.len() == BSIZE,
                store.bcache == s1.bcache,
                store.disk == s1.disk,
                store.pinned == s1.pinned,
                store.log.inner == (LogInner { header: store.log.inner.header, ..s1.log.inner }),
                store.log.inner.header.n == n,
                forall|j: int|
                    0 <= j < i ==> #[trigger] store.log.inner.header.blocks@[j] == u32_at(h, 4 + 4 * j),
            decreases n - i,
        {
            store.log.inner.header.blocks[i] = get_u32(buf.data(), 4 + 4 * i);
            i += 1;
        }
        proof {
            assert(store.log.logged() =~= header_of(h));
            lemma_same_log(s1, *store);
        }
        store.brelse(buf);
        proof {
            assert(store@.held =~= Set::<BlockId>::empty());
        }
    }
}

/// A change of the log alone changes neither blocks nor buffers.
proof fn lemma_same_log(s0: Store, s1: Store)
    requires
        s0.inv(),
        s1.bcache == s0.bcache,
        s1.disk == s0.disk,
        s1.pinned == s0.pinned,
    ensures
        s1.inv(),
        s1@.blocks == s0@.blocks,
        s1@.held == s0@.held,
{
    assert forall|j: int| 0 <= j < NBUF implies #[trigger] s1.slot_ok(j) by {
        assert(s0.slot_ok(j));
    }
    lemma_same_blocks(s0, s1);
    lemma_same_held(s0, s1);
}

impl Store {
    /// Takes back the log's pin on a buffer that has been written to the device.
    fn unpin(&mut self, buf: &Buf)
        requires
            old(self).inv(),
            old(self).out(*buf),
            old(self).pinned@.contains(buf.block@),
            buf.bytes() == old(self)@.blocks[buf.block@],
            old(self).disk@[buf.block@] == buf.bytes(),
        ensures
            final(self).inv(),
            final(self).log == old(self).log,
            final(self).disk == old(self).disk,
            final(self).pinned@ == old(self).pinned@.remove(buf.block@),
            final(self)@ == old(self)@,
            final(self).slots() == old(self).slots(),
    {
        let ghost s0 = *self;
        let ghost i = buf.id as int;
        let ghost id = buf.block@;
        proof {
            self.lemma_out(*buf);
            assert(self.slot_ok(i));
            self.lemma_block(i);
        }
        self.bcache.unpin(buf);
        proof {
            self.pinned@ = self.pinned@.remove(id);
            assert forall|j: int| 0 <= j < NBUF implies #[trigger] self.slot_ok(j) by {
                assert(s0.slot_ok(j));
                if j != i {
                    assert(s0.bcache.inner.meta@[i].id() != (0u32, 0u32));
                    assert(s0.bcache.inner.meta@[j].id() != id);
                }
            }
            assert forall|d: BlockId| #[trigger] self.pinned@.contains(d) implies self.bcache.inner.has(d) by {
                let j = choose|j: int| s0.bcache.inner.has_at(j, d);
                assert(s0.bcache.inner.has_at(j, d));
                assert(self.bcache.inner.has_at(j, d));
            }
            lemma_same_blocks(s0, *self);
            lemma_same_held(s0, *self);
        }
    }
}

proof fn lemma_apply_concat(
    disk: Map<BlockId, Seq<u8>>,
    w1: Seq<(BlockId, Seq<u8>)>,
    w2: Seq<(BlockId, Seq<u8>)>,
)
    ensures
        apply(disk, w1 + w2) == apply(apply(disk, w1), w2),
    decreases w2.len(),
{
    if w2.len() == 0 {
        assert(w1 + w2 =~= w1);
    } else {
        lemma_apply_concat(disk, w1, w2.drop_last());
        assert((w1 + w2).drop_last() =~= w1 + w2.drop_last());
    }
}

/// What the writes `w` do to block `id` when none of them is to that block.
proof fn lemma_apply_frame(disk: Map<BlockId, Seq<u8>>, w: Seq<(BlockId, Seq<u8>)>, id: BlockId)
    requires
        forall|i: int| 0 <= i < w.len() ==> (#[trigger] w[i]).0 != id,
    ensures
        apply(disk, w)[id] == disk[id],
    decreases w.len(),
{
    if w.len() > 0 {
        lemma_apply_frame(disk, w.drop_last(), id);
        assert(w.last() == w[w.len() - 1]);
        assert forall|i: int| 0 <= i < w.len() - 1 implies (#[trigger] w.drop_last()[i]).0 != id by {
            assert(w.drop_last()[i] == w[i]);
        }
    }
}

/// What the writes `w` do to the block of the `k`th write when no other is to that block.
proof fn lemma_apply_at(disk: Map<BlockId, Seq<u8>>, w: Seq<(BlockId, Seq<u8>)>, k: int)
    requires
        0 <= k < w.len(),
        forall|i: int| k < i < w.len() ==> (#[trigger] w[i]).0 != w[k].0,
    ensures
        apply(disk, w)[w[k].0] == w[k].1,
{
    let w1 = w.take(k + 1);
    let w2 = w.skip(k + 1);
    assert(w =~= w1 + w2);
    lemma_apply_concat(disk, w1, w2);
    assert forall|i: int| 0 <= i < w2.len() implies (#[trigger] w2[i]).0 != w[k].0 by {
        assert(w2[i] == w[k + 1 + i]);
    }
    lemma_apply_frame(apply(disk, w1), w2, w[k].0);
    assert(w1.last() == w[k]);
}

/// A block with no place among the first `k` keeps its contents when those are copied home.
proof fn lemma_installed_frame(
    blocks: Map<BlockId, Seq<u8>>,
    dev: u32,
    start: u32,
    logged: Seq<u32>,
    k: nat,
    id: BlockId,
)
    requires
        k <= logged.len(),
        id.0 != dev || forall|i: int| 0 <= i < k ==> #[trigger] logged[i] != id.1,
    ensures
        installed(blocks, dev, start, logged, k)[id] == blocks[id],
    decreases k,
{
    if k > 0 {
        lemma_installed_frame(blocks, dev, start, logged, (k - 1) as nat, id);
    }
}

/// Copying home a transaction whose log area is apart from it gives every block its log copy.
proof fn lemma_installed_at(
    blocks: Map<BlockId, Seq<u8>>,
    dev: u32,
    start: u32,
    logged: Seq<u32>,
    k: nat,
    i: int,
)
    requires
        k <= logged.len(),
        start + logged.len() <= u32::MAX,
        0 <= i < k,
        logged.no_duplicates(),
        forall|i: int|
            0 <= i < logged.len() ==> !(start <= #[trigger] logged[i] <= start + logged.len()),
    ensures
        installed(blocks, dev, start, logged, k)[(dev, logged[i])] == blocks[(
            dev,
            (start + 1 + i) as u32,
        )],
    decreases k,
{
    if i == k - 1 {
        lemma_installed_frame(
            blocks,
            dev,
            start,
            logged,
            (k - 1) as nat,
            (dev, (start + k) as u32),
        );
    } else {
        lemma_installed_at(blocks, dev, start, logged, (k - 1) as nat, i);
        assert(logged[i] != logged[k - 1]);
    }
}

/// The store after the log was written, the header first.
spec fn with_log(s: StoreState) -> Map<BlockId, Seq<u8>> {
    apply(s.blocks, s.log_writes().push(((s.dev, s.start), s.head_block())))
}

proof fn lemma_with_log(s: StoreState, d: Map<BlockId, Seq<u8>>)
    requires
        s.can_commit(),
        s.start + s.logged.len() <= u32::MAX,
    ensures
        forall|i: int|
            0 <= i < s.logged.len() ==> #[trigger] apply(
                d,
                s.log_writes().push(((s.dev, s.start), s.head_block())),
            )[(s.dev, (s.start + 1 + i) as u32)] == s.logged_data(i),
        apply(d, s.log_writes().push(((s.dev, s.start), s.head_block())))[(s.dev, s.start)]
            == s.head_block(),
        forall|id: BlockId|
            id.0 != s.dev || id.1 < s.start || id.1 > s.start + s.logged.len() ==> #[trigger] apply(
                d,
                s.log_writes().push(((s.dev, s.start), s.head_block())),
            )[id] == d[id],
{
    let w = s.log_writes().push(((s.dev, s.start), s.head_block()));
    assert forall|i: int| 0 <= i < s.logged.len() implies #[trigger] apply(d, w)[(
        s.dev,
        (s.start + 1 + i) as u32,
    )] == s.logged_data(i) by {
        assert(w[i] == ((s.dev, (s.start + 1 + i) as u32), s.logged_data(i)));
        lemma_apply_at(d, w, i);
    }
    lemma_apply_at(d, w, s.logged.len() as int);
    assert forall|id: BlockId|
        id.0 != s.dev || id.1 < s.start || id.1 > s.start + s.logged.len() implies #[trigger] apply(
        d,
        w,
    )[id] == d[id] by {
        lemma_apply_frame(d, w, id);
    }
}

/// Copying home after the log was written writes the transaction's own data.
proof fn lemma_install_is_home(s: StoreState)
    requires
        s.can_commit(),
        s.logged.no_duplicates(),
        s.start + s.logged.len() <= u32::MAX,
    ensures
        install_writes(with_log(s), s.dev, s.start, s.logged, s.logged.len()) == s.home_writes(),
        installed(with_log(s), s.dev, s.start, s.logged, s.logged.len()) == apply(
            with_log(s),
            s.home_writes(),
        ),
{
    let b = with_log(s);
    let n = s.logged.len();
    lemma_with_log(s, s.blocks);
    let w = install_writes(b, s.dev, s.start, s.logged, n);
    assert forall|i: int| 0 <= i < n implies w[i] == s.home_writes()[i] by {
        lemma_installed_frame(
            b,
            s.dev,
            s.start,
            s.logged,
            i as nat,
            (s.dev, (s.start + 1 + i) as u32),
        );
        assert(b[(s.dev, (s.start + 1 + i) as u32)] == s.logged_data(i));
    }
    assert(w =~= s.home_writes());
    lemma_installed_apply(b, s.dev, s.start, s.logged, n);
}

proof fn lemma_installed_apply(
    blocks: Map<BlockId, Seq<u8>>,
    dev: u32,
    start: u32,
    logged: Seq<u32>,
    k: nat,
)
    ensures
        installed(blocks, dev, start, logged, k) == apply(
            blocks,
            install_writes(blocks, dev, start, logged, k),
        ),
    decreases k,
{
    if k > 0 {
        lemma_installed_apply(blocks, dev, start, logged, (k - 1) as nat);
        assert(install_writes(blocks, dev, start, logged, k).drop_last() =~= install_writes(
            blocks,
            dev,
            start,
            logged,
            (k - 1) as nat,
        ));
    }
}

/// Commits the current transaction.
fn commit(store: &mut Store)
    requires
        old(store).wf(),
        old(store)@.can_commit(),
    ensures
        final(store).wf(),
        final(store)@ == old(store)@.committed(),
        final(store).disk@ == apply(old(store).disk@, old(store)@.commit_writes()),
        final(store).disk.writes() == old(store).disk.writes() + old(store)@.commit_writes(),
{
    let ghost s0 = *store;
    let ghost v = store@;
    let n = store.log.inner.header.n;
    if n > 0 {
        Log::write_log(store);
        let ghost w1 = v.log_writes();
        let ghost hw = ((v.dev, v.start), v.head_block());
        proof {
            assert forall|i: int| 0 <= i < w1.len() implies (#[trigger] w1[i]).0 != (v.dev, v.start) by {}
            lemma_apply_frame(v.blocks, w1, (v.dev, v.start));
            assert(store@.head_block() == v.head_block());
            lemma_apply_push(v.blocks, w1, hw);
            lemma_apply_push(s0.disk@, w1, hw);
        }
        Log::write_head(store);
        proof {
            assert(store@.blocks == with_log(v));
            lemma_install_is_home(v);
            assert(installable(store@.dev, store@.start, store@.logged));
        }
        Log::install_trans(store, false);
        let ghost w2 = v.home_writes();
        let ghost s3 = *store;
        store.log.inner.header.n = 0;
        let ghost wc = ((v.dev, v.start), put_header(v.head_block(), seq![]));
        proof {
            lemma_same_log(s3, *store);
            assert(store.log.logged() =~= Seq::<u32>::empty());
            lemma_with_log(v, v.blocks);
            lemma_apply_frame(with_log(v), w2, (v.dev, v.start));
            assert(store@.blocks[(v.dev, v.start)] == v.head_block());
            lemma_apply_concat(v.blocks, w1.push(hw), w2);
            lemma_apply_concat(s0.disk@, w1.push(hw), w2);
            let w12 = w1.push(hw) + w2;
            lemma_apply_push(v.blocks, w12, wc);
            lemma_apply_push(s0.disk@, w12, wc);
            assert(w12.push(wc) =~= v.commit_writes());
        }
        Log::write_head(store);
        proof {
            assert(store.disk.writes() =~= s0.disk.writes() + v.commit_writes());
        }
    } else {
        proof {
            assert(s0.disk.writes() + v.commit_writes() =~= s0.disk.writes());
            assert(store@.logged =~= Seq::<u32>::empty());
        }
    }
}

/// Begins a new operation on the log. Must be called at the start of each file system call.
/// `Err` names the channel to sleep on before trying again: a commit is running, or the
/// operation might exhaust the log.
pub fn begin_op(store: &mut Store) -> (r: Result<(), Channel>)
    requires
        old(store).wf(),
        old(store)@.outstanding < u32::MAX,
    ensures
        final(store).wf(),
        r is Ok <==> old(store)@.can_begin(),
        r matches Err(c) ==> c == Channel::Log && *final(store) == *old(store),
        r is Ok ==> final(store)@ == (StoreState {
            outstanding: (old(store)@.outstanding + 1) as u32,
            ..old(store)@
        }),
        final(store).disk == old(store).disk,
{
    let ops: u64 = store.log.inner.outstanding as u64 + 1;
    let max: u64 = MAXOPBLOCKS as u64;
    assert(ops * max <= 0x1_0000_0000 * 10) by (nonlinear_arith)
        requires
            ops <= 0x1_0000_0000,
            max == 10,
    ;
    if store.log.inner.committing {
        Err(Channel::Log)
    } else if store.log.inner.header.n as u64 + ops * max > LOGBLOCKS as u64 {
        // this op might exhaust log space; wait for commit
        Err(Channel::Log)
    } else {
        let ghost s0 = *store;
        store.log.inner.outstanding = store.log.inner.outstanding + 1;
        proof {
            lemma_same_log(s0, *store);
        }
        Ok(())
    }
}

impl StoreState {
    /// Another operation can begin.
    pub open spec fn can_begin(self) -> bool {
        &&& !self.committing
        &&& self.logged.len() + (self.outstanding + 1) * MAXOPBLOCKS <= LOGBLOCKS
    }

    /// The state after an operation has ended: the last one commits.
    pub open spec fn ended(self) -> StoreState {
        let s = StoreState { outstanding: (self.outstanding - 1) as u32, ..self };
        if s.outstanding == 0 {
            s.committed()
        } else {
            s
        }
    }
}

/// Ends the current operation on the log. Must be called at the end of each file system call.
/// Commits if this was the last outstanding operation. Either way whoever sleeps on
/// `Channel::Log` is to be woken up, since log space has been given back.
pub fn end_op(store: &mut Store) -> (r: Channel)
    requires
        old(store).wf(),
        old(store)@.outstanding > 0,
        !old(store)@.committing,
        old(store)@.outstanding == 1 ==> old(store)@.can_commit(),
    ensures
        r == Channel::Log,
        final(store).wf(),
        final(store)@ == old(store)@.ended(),
        final(store).disk.writes() == old(store).disk.writes() + (if old(store)@.outstanding == 1 {
            old(store)@.commit_writes()
        } else {
            seq![]
        }),
        old(store)@.outstanding == 1 ==> final(store).disk@ == apply(
            old(store).disk@,
            old(store)@.commit_writes(),
        ),
        old(store)@.outstanding != 1 ==> final(store).disk == old(store).disk,
{
    let ghost s0 = *store;
    store.log.inner.outstanding = store.log.inner.outstanding - 1;
    proof {
        lemma_same_log(s0, *store);
        assert(s0.disk.writes() + seq![] =~= s0.disk.writes());
    }
    if store.log.inner.outstanding == 0 {
        store.log.inner.committing = true;
        let ghost s1 = *store;
        proof {
            lemma_same_log(s0, *store);
            assert(s1@.log_writes() =~= s0@.log_writes());
            assert(s1@.home_writes() =~= s0@.home_writes());
            assert(s1@.commit_writes() =~= s0@.commit_writes());
        }
        commit(store);
        let ghost s2 = *store;
        store.log.inner.committing = false;
        proof {
            lemma_same_log(s2, *store);
            let e = StoreState { outstanding: (s0@.outstanding - 1) as u32, ..s0@ };
            assert(e.log_writes() =~= s0@.log_writes());
            assert(e.home_writes() =~= s0@.home_writes());
            assert(e.commit_writes() =~= s0@.commit_writes());
        }
    }
    Channel::Log
}

/// Everything that recovery writes to the device, in order: the blocks' homes, and the cleared
/// header.
pub open spec fn recovery_writes(disk: Map<BlockId, Seq<u8>>, dev: u32, start: u32) -> Seq<
    (BlockId, Seq<u8>),
> {
    let hs = header_of(disk[(dev, start)]);
    let d = installed(disk, dev, start, hs, hs.len());
    install_writes(disk, dev, start, hs, hs.len()).push(
        ((dev, start), put_header(d[(dev, start)], seq![])),
    )
}

/// Recovers the log by installing any committed transaction found in the log on disk.
pub fn recover_from_log(store: &mut Store)
    requires
        old(store).inv(),
        old(store).pinned@ == Set::<BlockId>::empty(),
        old(store)@.held == Set::<BlockId>::empty(),
        old(store)@.start + old(store)@.size <= u32::MAX,
        u32_at(old(store)@.blocks[(old(store)@.dev, old(store)@.start)], 0) <= LOGBLOCKS,
        installable(
            old(store)@.dev,
            old(store)@.start,
            header_of(old(store)@.blocks[(old(store)@.dev, old(store)@.start)]),
        ),
    ensures
        final(store).wf(),
        final(store)@ == (StoreState {
            blocks: recovered(old(store)@.blocks, old(store)@.dev, old(store)@.start),
            logged: seq![],
            ..old(store)@
        }),
        final(store).disk@ == final(store)@.blocks,
        final(store).disk.writes() == old(store).disk.writes() + recovery_writes(
            old(store)@.blocks,
            old(store)@.dev,
            old(store)@.start,
        ),
{
    let ghost s0 = *store;
    Log::read_head(store);
    Log::install_trans(store, true);
    let ghost s1 = *store;
    store.log.inner.header.n = 0;
    proof {
        lemma_same_log(s1, *store);
        assert(store.log.logged() =~= Seq::<u32>::empty());
    }
    Log::write_head(store);
    proof {
        store.lemma_clean();
        assert(store.disk.writes() =~= s0.disk.writes() + recovery_writes(
            s0@.blocks,
            s0@.dev,
            s0@.start,
        ));
    }
}

impl Store {
    /// With nothing pinned, the device holds what the cache shows.
    pub proof fn lemma_clean(self)
        requires
            self.inv(),
            self.pinned@ == Set::<BlockId>::empty(),
        ensures
            self.disk@ == self@.blocks,
    {
        self.disk.lemma_total();
        assert forall|d: BlockId| #[trigger] self.disk@[d] == self@.blocks[d] by {
            if exists|j: int| self.bcache.valid_at(j, d) {
                let j = choose|j: int| self.bcache.valid_at(j, d);
                assert(self.slot_ok(j));
                self.lemma_block(j);
            } else {
                self.lemma_no_block(d);
            }
        }
        assert(self.disk@ =~= self@.blocks);
    }
}

/// A header block that was written reads back as the numbers that were written.
pub proof fn lemma_header_roundtrip(old_block: Seq<u8>, hs: Seq<u32>)
    requires
        old_block.len() == BSIZE,
        hs.len() <= LOGBLOCKS,
    ensures
        header_of(put_header(old_block, hs)) == hs,
{
    let h = put_header(old_block, hs);
    let n = hs.len() as u32;
    assert(h.subrange(0, 4) =~= u32_bytes(n));
    lemma_u32_at(h, 0, n);
    assert(h.subrange(4, (4 + 4 * hs.len()) as int) =~= words(hs));
    assert forall|i: int| 0 <= i < hs.len() implies u32_at(h, 4 + 4 * i) == hs[i] by {
        lemma_words_at(h, 4, hs, i);
    }
    assert(header_of(h) =~= hs);
}

/// A crash loses nothing that was committed and leaves nothing half done.
///
/// Of the writes that a commit makes to a device with a cleared log, let any number reach the
/// device. If the header was not among them, recovery leaves every block outside the log area as
/// it was before the transaction. If it was, recovery brings every block to its state after the
/// transaction.
#[verifier::rlimit(40)]
pub proof fn law_crash_atomicity(disk: Map<BlockId, Seq<u8>>, s: StoreState, k: int)
    requires
        s.can_commit(),
        s.logged.no_duplicates(),
        s.logged.len() <= LOGBLOCKS,
        s.start + s.logged.len() <= u32::MAX,
        s.blocks[(s.dev, s.start)].len() == BSIZE,
        header_of(disk[(s.dev, s.start)]).len() == 0,
        0 <= k <= s.commit_writes().len(),
    ensures
        ({
            let after = recovered(apply(disk, s.commit_writes().take(k)), s.dev, s.start);
            forall|id: BlockId|
                id.0 != s.dev || id.1 < s.start || id.1 > s.start + s.logged.len()
                    ==> #[trigger] after[id] == (if k > s.logged.len() && id.0 == s.dev
                    && s.logged.contains(id.1) {
                    s.blocks[id]
                } else {
                    disk[id]
                })
        }),
{
    let n = s.logged.len() as int;
    let w = s.commit_writes();
    let d = apply(disk, w.take(k));
    let after = recovered(d, s.dev, s.start);
    let hid = (s.dev, s.start);
    let lw = s.log_writes();
    let hw = (hid, s.head_block());
    if n == 0 {
        assert(w.take(k) =~= seq![]);
    } else if k <= n {
        assert(w.take(k) =~= lw.take(k));
        lemma_apply_frame(disk, lw.take(k), hid);
        assert forall|id: BlockId|
            id.0 != s.dev || id.1 < s.start || id.1 > s.start + s.logged.len() implies #[trigger] after[id]
            == disk[id] by {
            lemma_apply_frame(disk, lw.take(k), id);
        }
    } else {
        let base = apply(disk, lw.push(hw));
        let rest = w.take(k).skip(n + 1);
        assert(w.take(k) =~= lw.push(hw) + rest);
        lemma_apply_concat(disk, lw.push(hw), rest);
        lemma_with_log(s, disk);
        lemma_header_roundtrip(s.blocks[hid], s.logged);
        if k <= 2 * n + 1 {
            let hs = s.home_writes().take(k - n - 1);
            assert(rest =~= hs);
            lemma_apply_frame(base, hs, hid);
            assert(header_of(d[hid]) == s.logged);
            assert forall|id: BlockId|
                id.0 != s.dev || id.1 < s.start || id.1 > s.start + s.logged.len() implies #[trigger] after[id]
                == (if id.0 == s.dev && s.logged.contains(id.1) {
                s.blocks[id]
            } else {
                disk[id]
            }) by {
                if id.0 == s.dev && s.logged.contains(id.1) {
                    let i = choose|i: int| 0 <= i < n && s.logged[i] == id.1;
                    let at = (s.dev, (s.start + 1 + i) as u32);
                    assert(base[at] == s.logged_data(i));
                    lemma_apply_frame(base, hs, at);
                    lemma_installed_at(d, s.dev, s.start, s.logged, n as nat, i);
                } else {
                    lemma_installed_frame(d, s.dev, s.start, s.logged, n as nat, id);
                    assert forall|i: int| 0 <= i < hs.len() implies (#[trigger] hs[i]).0 != id by {
                        assert(s.logged.contains(s.logged[i]));
                    }
                    lemma_apply_frame(base, hs, id);
                }
            }
        } else {
            let hs = s.home_writes();
            let cw = (hid, put_header(s.head_block(), seq![]));
            assert(rest =~= hs.push(cw));
            lemma_header_roundtrip(s.head_block(), seq![]);
            lemma_apply_at(base, rest, n);
            assert(header_of(d[hid]) == Seq::<u32>::empty());
            assert forall|id: BlockId|
                id.0 != s.dev || id.1 < s.start || id.1 > s.start + s.logged.len() implies #[trigger] after[id]
                == (if id.0 == s.dev && s.logged.contains(id.1) {
                s.blocks[id]
            } else {
                disk[id]
            }) by {
                if id.0 == s.dev && s.logged.contains(id.1) {
                    let i = choose|i: int| 0 <= i < n && s.logged[i] == id.1;
                    assert(rest[i] == ((s.dev, s.logged[i]), s.logged_data(i)));
                    assert forall|j: int| i < j < rest.len() implies (#[trigger] rest[j]).0 != rest[i].0 by {
                        if j < n {
                            assert(s.logged[i] != s.logged[j]);
                        }
                    }
                    lemma_apply_at(base, rest, i);
                } else {
                    assert forall|i: int| 0 <= i < rest.len() implies (#[trigger] rest[i]).0 != id by {
                        if i < n {
                            assert(s.logged.contains(s.logged[i]));
                        }
                    }
                    lemma_apply_frame(base, rest, id);
                }
            }
        }
    }
}

/// Where `id` is the home of one of the first `j` blocks, copying them home after some were copied
/// already gives it what it is given by copying them once.
proof fn lemma_installed_again(
    disk: Map<BlockId, Seq<u8>>,
    dev: u32,
    start: u32,
    hs: Seq<u32>,
    k: nat,
    j: nat,
    id: BlockId,
)
    requires
        k <= hs.len(),
        j <= hs.len(),
        start + hs.len() <= u32::MAX,
        forall|i: int| 0 <= i < hs.len() ==> !(start <= #[trigger] hs[i] <= start + hs.len()),
        id.0 == dev,
        exists|i: int| 0 <= i < j && #[trigger] hs[i] == id.1,
    ensures
        installed(installed(disk, dev, start, hs, k), dev, start, hs, j)[id] == installed(
            disk,
            dev,
            start,
            hs,
            j,
        )[id],
    decreases j,
{
    let once = installed(disk, dev, start, hs, k);
    if hs[j - 1] == id.1 {
        let at = (dev, (start + j) as u32);
        lemma_installed_frame(disk, dev, start, hs, k, at);
        lemma_installed_frame(once, dev, start, hs, (j - 1) as nat, at);
        lemma_installed_frame(disk, dev, start, hs, (j - 1) as nat, at);
    } else {
        lemma_installed_again(disk, dev, start, hs, k, (j - 1) as nat, id);
    }
}

/// A crash during recovery does no harm: of the writes that recovery makes let any number reach the
/// device, then recovering again leaves every block as recovering once does.
pub proof fn law_crash_in_recovery(disk: Map<BlockId, Seq<u8>>, dev: u32, start: u32, k: int)
    requires
        disk[(dev, start)].len() == BSIZE,
        0 <= k <= recovery_writes(disk, dev, start).len(),
        ({
            let hs = header_of(disk[(dev, start)]);
            &&& start + hs.len() <= u32::MAX
            &&& forall|i: int|
                0 <= i < hs.len() ==> !(start <= #[trigger] hs[i] <= start + hs.len())
        }),
    ensures
        ({
            let again = recovered(
                apply(disk, recovery_writes(disk, dev, start).take(k)),
                dev,
                start,
            );
            forall|id: BlockId| #[trigger] again[id] == recovered(disk, dev, start)[id]
        }),
{
    let hid = (dev, start);
    let h = disk[hid];
    let hs = header_of(h);
    let n = hs.len();
    let w = recovery_writes(disk, dev, start);
    let all = installed(disk, dev, start, hs, n);
    let d = apply(disk, w.take(k));
    let once = recovered(disk, dev, start);
    let again = recovered(d, dev, start);
    lemma_installed_frame(disk, dev, start, hs, n, hid);
    if k <= n {
        let iw = install_writes(disk, dev, start, hs, k as nat);
        assert(w.take(k) =~= iw);
        lemma_installed_apply(disk, dev, start, hs, k as nat);
        assert(d == installed(disk, dev, start, hs, k as nat));
        lemma_installed_frame(disk, dev, start, hs, k as nat, hid);
        lemma_installed_frame(d, dev, start, hs, n, hid);
        assert forall|id: BlockId| #[trigger] again[id] == once[id] by {
            if id != hid {
                if id.0 == dev && exists|i: int| 0 <= i < n && #[trigger] hs[i] == id.1 {
                    lemma_installed_again(disk, dev, start, hs, k as nat, n, id);
                } else {
                    lemma_installed_frame(disk, dev, start, hs, k as nat, id);
                    lemma_installed_frame(d, dev, start, hs, n, id);
                    lemma_installed_frame(disk, dev, start, hs, n, id);
                }
            }
        }
    } else {
        let iw = install_writes(disk, dev, start, hs, n);
        let clear = put_header(all[hid], seq![]);
        assert(w.take(k) =~= iw.push((hid, clear)));
        lemma_installed_apply(disk, dev, start, hs, n);
        lemma_apply_push(disk, iw, (hid, clear));
        assert(d == once);
        lemma_header_roundtrip(all[hid], seq![]);
        assert(put_header(clear, seq![]) =~= clear);
    }
}

/// A commit changes no block as users of the store see it, but for the log area.
pub proof fn law_commit_keeps_blocks(s: StoreState, id: BlockId)
    requires
        s.can_commit(),
        s.logged.no_duplicates(),
        s.start + s.logged.len() <= u32::MAX,
        id.0 != s.dev || id.1 < s.start || id.1 > s.start + s.logged.len(),
    ensures
        s.committed().blocks[id] == s.blocks[id],
{
    let n = s.logged.len() as int;
    let w = s.commit_writes();
    if id.0 == s.dev && s.logged.contains(id.1) {
        let i = choose|i: int| 0 <= i < n && s.logged[i] == id.1;
        assert(w[n + 1 + i] == ((s.dev, s.logged[i]), s.logged_data(i)));
        assert forall|j: int| n + 1 + i < j < w.len() implies (#[trigger] w[j]).0 != w[n + 1 + i].0 by {
            if j < 2 * n + 1 {
                assert(w[j] == s.home_writes()[j - n - 1]);
                assert(s.logged[i] != s.logged[j - n - 1]);
            }
        }
        lemma_apply_at(s.blocks, w, n + 1 + i);
    } else {
        assert forall|i: int| 0 <= i < w.len() implies (#[trigger] w[i]).0 != id by {
            if n < i < 2 * n + 1 {
                assert(w[i] == s.home_writes()[i - n - 1]);
                assert(s.logged.contains(s.logged[i - n - 1]));
            }
        }
        lemma_apply_frame(s.blocks, w, id);
    }
}

/// A log operation: begun on creation, ended by `end`. If the operation did not complete
/// successfully, the optional `on_err` callback is invoked first.
#[derive(Debug)]
pub struct Operation<F> {
    pub on_err: Option<F>,
    pub success: bool,
}

impl<F: FnOnce()> Operation<F> {
    /// Begins an operation, or names the channel to sleep on before trying again.
    pub fn begin(store: &mut Store) -> (r: Result<Self, Channel>)
        requires
            old(store).wf(),
            old(store)@.outstanding < u32::MAX,
        ensures
            final(store).wf(),
            r is Ok <==> old(store)@.can_begin(),
            r matches Err(c) ==> c == Channel::Log && *final(store) == *old(store),
            r matches Ok(op) ==> op.on_err is None && !op.success && final(store)@ == (StoreState {
                outstanding: (old(store)@.outstanding + 1) as u32,
                ..old(store)@
            }),
    {
        match begin_op(store) {
            Ok(()) => Ok(Operation { on_err: None, success: false }),
            Err(c) => Err(c),
        }
    }

    /// Like `begin`, with a callback for the case that the operation fails.
    pub fn begin_with(store: &mut Store, on_err: F) -> (r: Result<Self, Channel>)
        requires
            old(store).wf(),
            old(store)@.outstanding < u32::MAX,
        ensures
            final(store).wf(),
            r is Ok <==> old(store)@.can_begin(),
            r matches Err(c) ==> c == Channel::Log && *final(store) == *old(store),
            r matches Ok(op) ==> op.on_err == Some(on_err) && !op.success && final(store)@ == (
            StoreState { outstanding: (old(store)@.outstanding + 1) as u32, ..old(store)@ }),
    {
        match begin_op(store) {
            Ok(()) => Ok(Operation { on_err: Some(on_err), success: false }),
            Err(c) => Err(c),
        }
    }

    /// Marks the operation as successful.
    pub fn success(&mut self)
        ensures
            *final(self) == (Operation { success: true, ..*old(self) }),
    {
        self.success = true;
    }

    /// Ends the operation. Whoever sleeps on the channel returned is to be woken up.
    pub fn end(self, store: &mut Store) -> (r: Channel)
        requires
            old(store).wf(),
            old(store)@.outstanding > 0,
            !old(store)@.committing,
            old(store)@.outstanding == 1 ==> old(store)@.can_commit(),
            !self.success && self.on_err is Some ==> call_requires(self.on_err->0, ()),
        ensures
            r == Channel::Log,
            final(store).wf(),
            final(store)@ == old(store)@.ended(),
            !self.success && self.on_err is Some ==> call_ensures(self.on_err->0, (), ()),
    {
        if !self.success {
            if let Some(f) = self.on_err {
                f();
            }
        }
        end_op(store)
    }
}

/// Initialize the log system: the log lies where the superblock says, and a transaction that was
/// committed but not installed is installed.
pub fn init(store: &mut Store, dev: u32, sb: &SuperBlock)
    requires
        old(store).inv(),
        old(store).pinned@ == Set::<BlockId>::empty(),
        old(store)@.held == Set::<BlockId>::empty(),
        sb.logstart + sb.nlogs <= u32::MAX,
        u32_at(old(store)@.blocks[(dev, sb.logstart)], 0) <= LOGBLOCKS,
        installable(dev, sb.logstart, header_of(old(store)@.blocks[(dev, sb.logstart)])),
    ensures
        final(store).wf(),
        final(store)@ == (StoreState {
            blocks: recovered(old(store)@.blocks, dev, sb.logstart),
            logged: seq![],
            start: sb.logstart,
            size: sb.nlogs,
            dev,
            ..old(store)@
        }),
        final(store).disk@ == final(store)@.blocks,
{
    let ghost s0 = *store;
    store.log.inner.start = sb.logstart;
    store.log.inner.size = sb.nlogs;
    store.log.inner.dev = dev;
    proof {
        lemma_same_log(s0, *store);
    }
    recover_from_log(store);
}

} // verus!
