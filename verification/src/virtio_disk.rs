//! The block device.
use vstd::prelude::*;
use std::collections::HashMap;

verus! {

broadcast use vstd::std_specs::hash::group_hash_axioms;

/// Block size
pub const BSIZE: usize = 1024;

/// A device number and a block number on that device.
pub type BlockId = (u32, u32);

/// A block of zeros.
pub open spec fn zeros() -> Seq<u8> {
    Seq::new(BSIZE as nat, |i: int| 0u8)
}

/// The key under which a block is kept.
pub open spec fn key_of(id: BlockId) -> u64 {
    (0x1_0000_0000 * id.0 + id.1) as u64
}

/// Sparse block storage: a block that was never written reads as zeros.
///
/// `history` is the sequence of all writes so far, in the order in which they reached the
/// device.
pub struct Disk {
    blocks: HashMap<u64, [u8; BSIZE]>,
    history: Ghost<Seq<(BlockId, Seq<u8>)>>,
}

impl View for Disk {
    type V = Map<BlockId, Seq<u8>>;

    /// The contents of every block.
    closed spec fn view(&self) -> Map<BlockId, Seq<u8>> {
        Map::new(
            |id: BlockId| true,
            |id: BlockId|
                if self.blocks@.contains_key(key_of(id)) {
                    self.blocks@[key_of(id)]@
                } else {
                    zeros()
                },
        )
    }
}

impl Disk {
    /// All writes so far.
    pub closed spec fn writes(self) -> Seq<(BlockId, Seq<u8>)> {
        self.history@
    }

    /// Every block can be read, and is `BSIZE` bytes long.
    pub proof fn lemma_total(self)
        ensures
            forall|id: BlockId| #[trigger] self@.contains_key(id),
            forall|id: BlockId| (#[trigger] self@[id]).len() == BSIZE,
    {
    }

    /// A device on which nothing was written.
    pub fn new() -> (r: Self)
        ensures
            r@ == Map::new(|id: BlockId| true, |id: BlockId| zeros()),
            r.writes().len() == 0,
    {
        let r = Disk { blocks: HashMap::new(), history: Ghost(Seq::empty()) };
        assert(r@ =~= Map::new(|id: BlockId| true, |id: BlockId| zeros()));
        r
    }

    /// Transfers one block: `data` is written to the device if `write`, else it is filled from
    /// the device.
    pub fn rw(&mut self, dev: u32, block_no: u32, data: &mut [u8; BSIZE], write: bool)
        ensures
            write ==> final(self)@ == old(self)@.insert((dev, block_no), old(data)@),
            write ==> final(self).writes() == old(self).writes().push(
                ((dev, block_no), old(data)@),
            ),
            write ==> final(data)@ == old(data)@,
            !write ==> final(data)@ == old(self)@[(dev, block_no)],
            !write ==> final(self)@ == old(self)@,
            !write ==> final(self).writes() == old(self).writes(),
    {
        let key: u64 = 0x1_0000_0000 * (dev as u64) + block_no as u64;
        if write {
            self.blocks.insert(key, *data);
            self.history = Ghost(self.history@.push(((dev, block_no), data@)));
            assert(self@ =~= old(self)@.insert((dev, block_no), old(data)@)) by {
                assert forall|id: BlockId| self@[id] == old(self)@.insert(
                    (dev, block_no),
                    old(data)@,
                )[id] by {
                    assert(key_of(id) == key_of((dev, block_no)) ==> id == (dev, block_no));
                }
            }
        } else {
            match self.blocks.get(&key) {
                Some(block) => {
                    *data = *block;
                },
                None => {
                    *data = [0u8;BSIZE];
                    assert(data@ =~= zeros());
                },
            }
        }
    }
}

impl Default for Disk {
    fn default() -> (r: Self)
        ensures
            r@ == Map::new(|id: BlockId| true, |id: BlockId| zeros()),
            r.writes().len() == 0,
    {
        Self::new()
    }
}

} // verus!
