//! The allocator of disk blocks.
use vstd::prelude::*;
use crate::buf::Buf;
use crate::fs::{FsError, SuperBlock, BPB};
use crate::log;
use crate::log::{Store, StoreState};
use crate::virtio_disk::{zeros, BlockId, BSIZE};

verus! {

/// A disk block.
/// This is a wrapper around the block number.
#[derive(Debug, Clone, Copy, PartialEq, Eq, Structural)]
pub struct Block(pub u32);

/// The bit of block `b` in its byte of the bitmap.
pub open spec fn mask(b: u32) -> u8 {
    1u8 << (b % 8)
}

/// Where the byte of block `b` is in its block of the bitmap.
pub open spec fn byte_index(b: u32) -> int {
    (b % BPB / 8) as int
}

impl StoreState {
    /// The state with the buffer of `id` handed out.
    pub open spec fn hold(self, id: BlockId) -> StoreState {
        StoreState { held: self.held.insert(id), ..self }
    }

    /// The bitmap block of `b`.
    pub open spec fn bitmap(self, sb: SuperBlock, dev: u32, b: u32) -> Seq<u8> {
        self.blocks[(dev, sb.bitmap_block(b))]
    }

    /// Block `b` is marked in use in the bitmap.
    pub open spec fn used(self, sb: SuperBlock, dev: u32, b: u32) -> bool {
        self.bitmap(sb, dev, b)[byte_index(b)] & mask(b) != 0
    }

    /// `b` is the first free block.
    pub open spec fn first_free(self, sb: SuperBlock, dev: u32, b: u32) -> bool {
        &&& b < sb.size
        &&& !self.used(sb, dev, b)
        &&& forall|c: u32| c < b ==> #[trigger] self.used(sb, dev, c)
    }

    /// The bitmap can be searched up to and including block `b`.
    pub open spec fn can_scan(self, sb: SuperBlock, dev: u32, b: u32) -> bool {
        forall|c: u32| c <= b ==> self.readable((dev, #[trigger] sb.bitmap_block(c)))
    }

    /// The state after block `b` was marked in use.
    pub open spec fn mark(self, sb: SuperBlock, dev: u32, b: u32) -> StoreState {
        let map = self.bitmap(sb, dev, b);
        self.write(
            (dev, sb.bitmap_block(b)),
            map.update(byte_index(b), map[byte_index(b)] | mask(b)),
        )
    }

    /// The state after block `b` was marked free.
    pub open spec fn unmark(self, sb: SuperBlock, dev: u32, b: u32) -> StoreState {
        let map = self.bitmap(sb, dev, b);
        self.write(
            (dev, sb.bitmap_block(b)),
            map.update(byte_index(b), map[byte_index(b)] & !mask(b)),
        )
    }

    /// Zeroing block `b`; `None` where it cannot be done.
    pub open spec fn zero_block(self, dev: u32, b: u32) -> Option<StoreState> {
        if self.readable((dev, b)) && self.writable((dev, b)) {
            Some(self.write((dev, b), zeros()))
        } else {
            None
        }
    }

    /// Allocating a block: the first free one is marked and zeroed. `None` where a block that is
    /// needed is in use or the transaction has no room.
    pub open spec fn alloc_block(self, sb: SuperBlock, dev: u32) -> Option<
        (StoreState, Result<Block, FsError>),
    > {
        if exists|b: u32| self.first_free(sb, dev, b) {
            let b = choose|b: u32| self.first_free(sb, dev, b);
            if self.can_scan(sb, dev, b) && self.writable((dev, sb.bitmap_block(b))) {
                match self.mark(sb, dev, b).zero_block(dev, b) {
                    Some(s) => Some((s, Ok(Block(b)))),
                    None => None,
                }
            } else {
                None
            }
        } else if sb.size == 0 || self.can_scan(sb, dev, (sb.size - 1) as u32) {
            Some((self, Err(FsError::OutOfBlock)))
        } else {
            None
        }
    }

    /// Freeing block `b`, which must be in use. `None` where it cannot be done.
    pub open spec fn free_block(self, sb: SuperBlock, dev: u32, b: u32) -> Option<StoreState> {
        let id = (dev, sb.bitmap_block(b));
        if sb.bmapstart + b / BPB <= u32::MAX && self.readable(id) && self.writable(id)
            && self.used(sb, dev, b) {
            Some(self.unmark(sb, dev, b))
        } else {
            None
        }
    }
}

/// There is only one first free block.
pub proof fn lemma_first_free(s: StoreState, sb: SuperBlock, dev: u32, b: u32)
    requires
        s.first_free(sb, dev, b),
    ensures
        (choose|c: u32| s.first_free(sb, dev, c)) == b,
{
    let c = choose|c: u32| s.first_free(sb, dev, c);
    assert(s.first_free(sb, dev, c));
    if c < b {
        assert(s.used(sb, dev, c));
    }
    if b < c {
        assert(s.used(sb, dev, b));
    }
}

/// Block `b + i` has its bit in the same block of the bitmap as block `b`, which is the first one
/// there.
proof fn lemma_in_map(sb: SuperBlock, b: u32, i: u32)
    requires
        b % BPB == 0,
        i < BPB,
        b + i <= u32::MAX,
    ensures
        sb.bitmap_block((b + i) as u32) == sb.bitmap_block(b),
        byte_index((b + i) as u32) == i / 8,
        mask((b + i) as u32) == 1u8 << (i % 8),
{
    let c = (b + i) as u32;
    assert(c / BPB == b / BPB && c % BPB == i);
    assert(c % 8 == i % 8);
}

/// The first of the first `n` bits that is not set; `n` if all of them are.
fn first_clear(map: &[u8; BSIZE], n: u32) -> (r: u32)
    requires
        n <= BPB,
    ensures
        r <= n,
        forall|i: u32| i < r ==> map@[(#[trigger] (i / 8)) as int] & (1u8 << (i % 8)) != 0,
        r < n ==> map@[(r / 8) as int] & (1u8 << (r % 8)) == 0,
{
    let mut i: u32 = 0;
    while i < n && map[(i / 8) as usize] & (1u8 << (i % 8)) != 0
        invariant
            i <= n <= BPB,
            forall|j: u32| j < i ==> map@[(#[trigger] (j / 8)) as int] & (1u8 << (j % 8)) != 0,
        decreases n - i,
    {
        i += 1;
    }
    i
}

/// Marks block `b` in use, in the bitmap block that `buf` holds, and gives the buffer back.
fn mark_used(
    store: &mut Store,
    sb: &SuperBlock,
    dev: u32,
    buf: Buf,
    b: u32,
    s0: Ghost<StoreState>,
    slots: Ghost<Map<BlockId, int>>,
)
    requires
        old(store).wf(),
        old(store).out(buf),
        buf.block@ == (dev, sb.bitmap_block(b)),
        buf.bytes() == s0@.bitmap(*sb, dev, b),
        old(store)@ == s0@.hold(buf.block@),
        !s0@.held.contains(buf.block@),
        old(store).slots() == slots@.insert(buf.block@, buf.id as int),
        !slots@.contains_key(buf.block@),
        s0@.writable(buf.block@),
    ensures
        final(store).wf(),
        final(store)@ == s0@.mark(*sb, dev, b),
        final(store).slots() == slots@,
{
    let mut buf = buf;
    let i = (b % BPB / 8) as usize;
    let old_byte = buf.data()[i];
    buf.data_mut()[i] = old_byte | (1u8 << (b % 8));
    log::write(store, &buf);
    store.brelse(buf);
    proof {
        assert(store@.held =~= s0@.held);
        assert(store.slots() =~= slots@);
        assert(store@ =~= s0@.mark(*sb, dev, b));
    }
}

impl Block {
    /// Zeros out the disk block.
    pub fn zero(&self, store: &mut Store, dev: u32)
        requires
            old(store).wf(),
            old(store)@.zero_block(dev, self.0) is Some,
        ensures
            final(store).wf(),
            Some(final(store)@) == old(store)@.zero_block(dev, self.0),
            final(store).slots() == old(store).slots(),
    {
        let ghost s0 = store@;
        let mut buf = store.bread(dev, self.0);
        *buf.data_mut() = [0u8;BSIZE];
        assert(buf.bytes() =~= zeros());
        log::write(store, &buf);
        store.brelse(buf);
        proof {
            assert(store@.held =~= s0.held);
        }
    }

    /// Allocates a zeroed disk block.
    pub fn allocate(store: &mut Store, sb: &SuperBlock, dev: u32) -> (r: Result<Block, FsError>)
        requires
            old(store).wf(),
            sb.in_range(),
            old(store)@.alloc_block(*sb, dev) is Some,
        ensures
            final(store).wf(),
            Some((final(store)@, r)) == old(store)@.alloc_block(*sb, dev),
            final(store).slots() == old(store).slots(),
    {
        let ghost s0 = store@;
        let ghost st0 = *store;
        let mut b: u32 = 0;
        while b < sb.size
            invariant
                s0 == old(store)@,
                st0 == *old(store),
                b % BPB == 0,
                b <= sb.size + BPB,
                sb.in_range(),
                store.wf(),
                store@ == s0,
                store.slots() == st0.slots(),
                s0.alloc_block(*sb, dev) is Some,
                forall|c: u32| c < b && c < sb.size ==> #[trigger] s0.used(*sb, dev, c),
            decreases sb.size + BPB - b,
        {
            proof {
                lemma_scan(s0, *sb, dev, b);
                store.lemma_total();
            }
            let buf = store.bread(dev, sb.bmapstart + (b / BPB));
            let left = sb.size - b;
            let n: u32 = if left < BPB {
                left
            } else {
                BPB
            };
            let bi = first_clear(buf.data(), n);
            assert forall|c: u32| c < b + bi && c < sb.size implies #[trigger] s0.used(
                *sb,
                dev,
                c,
            ) by {
                if b <= c {
                    lemma_in_map(*sb, b, (c - b) as u32);
                }
            }
            if bi < n {
                proof {
                    lemma_in_map(*sb, b, bi);
                    assert(s0.first_free(*sb, dev, (b + bi) as u32));
                    lemma_first_free(s0, *sb, dev, (b + bi) as u32);
                }
                mark_used(store, sb, dev, buf, b + bi, Ghost(s0), Ghost(st0.slots()));
                let block = Block(b + bi);
                block.zero(store, dev);
                return Ok(block);
            }
            store.brelse(buf);
            proof {
                assert(store@.held =~= s0.held);
            }
            b += BPB;
        }
        proof {
            assert forall|c: u32| !s0.first_free(*sb, dev, c) by {
                if c < sb.size {
                    assert(s0.used(*sb, dev, c));
                }
            }
        }
        Err(FsError::OutOfBlock)
    }

    /// Frees a disk block, which must be in use.
    pub fn free(self, store: &mut Store, sb: &SuperBlock, dev: u32)
        requires
            old(store).wf(),
            old(store)@.free_block(*sb, dev, self.0) is Some,
        ensures
            final(store).wf(),
            Some(final(store)@) == old(store)@.free_block(*sb, dev, self.0),
            final(store).slots() == old(store).slots(),
    {
        let ghost s0 = store@;
        proof {
            store.lemma_total();
        }
        let mut buf = store.bread(dev, sb.bmapstart + (self.0 / BPB));
        let bi = self.0 % BPB;
        let m = 1u8 << (bi % 8);
        assert(bi % 8 == self.0 % 8);
        let old_byte = buf.data()[(bi / 8) as usize];
        buf.data_mut()[(bi / 8) as usize] = old_byte & !m;
        log::write(store, &buf);
        store.brelse(buf);
        proof {
            assert(store@.held =~= s0.held);
        }
    }
}

/// While every block before `b` is in use, the bitmap block of `b` can be read.
proof fn lemma_scan(s: StoreState, sb: SuperBlock, dev: u32, b: u32)
    requires
        s.alloc_block(sb, dev) is Some,
        b < sb.size,
        forall|c: u32| c < b && c < sb.size ==> #[trigger] s.used(sb, dev, c),
    ensures
        s.readable((dev, sb.bitmap_block(b))),
{
    if exists|c: u32| s.first_free(sb, dev, c) {
        let c = choose|c: u32| s.first_free(sb, dev, c);
        assert(s.first_free(sb, dev, c));
        if c < b {
            assert(s.used(sb, dev, c));
        }
        assert(s.can_scan(sb, dev, c));
    } else {
        assert(s.can_scan(sb, dev, (sb.size - 1) as u32));
    }
}

} // verus!
