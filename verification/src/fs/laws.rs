//! What holds of the file system as a whole.
use vstd::prelude::*;
use crate::fs::block::byte_index;
use crate::fs::inode::{chunk, dinode_bytes, dinode_offset, InodeData};
use crate::fs::{FsError, SuperBlock, MAXFILE, NADDRS, NDIRECT, NINDIRECT};
use crate::le::{lemma_u32_at, splice, u32_at, u32_bytes};
use crate::log::{StoreState, MAXHELD};
use crate::virtio_disk::{zeros, BlockId, BSIZE};

verus! {

/// Setting and clearing a bit changes that bit alone.
pub proof fn lemma_bits(x: u8, a: u32, b: u32)
    requires
        a < 8,
        b < 8,
    ensures
        ((x | (1u8 << a)) & (1u8 << b) != 0) == (x & (1u8 << b) != 0 || a == b),
        ((x & !(1u8 << a)) & (1u8 << b) != 0) == (x & (1u8 << b) != 0 && a != b),
        x & (1u8 << a) == 0 ==> (x | (1u8 << a)) & !(1u8 << a) == x,
{
    assert({
        &&& ((x | (1u8 << a)) & (1u8 << b) != 0) == (x & (1u8 << b) != 0 || a == b)
        &&& ((x & !(1u8 << a)) & (1u8 << b) != 0) == (x & (1u8 << b) != 0 && a != b)
        &&& x & (1u8 << a) == 0 ==> (x | (1u8 << a)) & !(1u8 << a) == x
    }) by (bit_vector)
        requires
            a < 8,
            b < 8,
    ;
}

impl StoreState {
    /// Every block has its size.
    pub open spec fn sized(self) -> bool {
        forall|id: BlockId| (#[trigger] self.blocks[id]).len() == BSIZE && self.blocks.contains_key(id)
    }

    /// `b` is a block of the bitmap.
    pub open spec fn is_bitmap(self, sb: SuperBlock, b: u32) -> bool {
        exists|c: u32| c < sb.size && #[trigger] sb.bitmap_block(c) == b
    }

    /// The boot block and the bitmap itself are marked in use.
    pub open spec fn reserved(self, sb: SuperBlock, dev: u32) -> bool {
        &&& sb.in_range()
        &&& 0 < sb.size
        &&& self.used(sb, dev, 0)
        &&& forall|b: u32|
            #[trigger] self.is_bitmap(sb, b) ==> b < sb.size && self.used(sb, dev, b)
    }
}

/// A number is given by its quotient by 8192, the quotient of the rest by 8, and the rest by 8.
#[verifier::spinoff_prover]
proof fn lemma_places(x: int, y: int)
    requires
        0 <= x,
        0 <= y,
        x / 8192 == y / 8192,
        (x % 8192) / 8 == (y % 8192) / 8,
        x % 8 == y % 8,
    ensures
        x == y,
{
    let a = x % 8192;
    let b = y % 8192;
    assert(a % 8 == x % 8) by {
        assert(x == 8 * (1024 * (x / 8192)) + a);
    }
    assert(b % 8 == y % 8) by {
        assert(y == 8 * (1024 * (y / 8192)) + b);
    }
    assert(a == 8 * (a / 8) + a % 8);
    assert(b == 8 * (b / 8) + b % 8);
}

/// Two blocks with the same bit are the same block.
proof fn lemma_same_bit(sb: SuperBlock, b: u32, c: u32)
    requires
        sb.in_range(),
        b < sb.size,
        c < sb.size,
        sb.bitmap_block(b) == sb.bitmap_block(c),
        byte_index(b) == byte_index(c),
        b % 8 == c % 8,
    ensures
        b == c,
{
    lemma_places(b as int, c as int);
}

/// Marking a block changes no other bit.
proof fn lemma_mark(s: StoreState, sb: SuperBlock, dev: u32, b: u32, c: u32)
    requires
        s.sized(),
        sb.in_range(),
        b < sb.size,
        c < sb.size,
    ensures
        s.mark(sb, dev, b).used(sb, dev, c) == (s.used(sb, dev, c) || c == b),
        s.unmark(sb, dev, b).used(sb, dev, c) == (s.used(sb, dev, c) && c != b),
{
    let x = s.bitmap(sb, dev, b)[byte_index(b)];
    lemma_bits(x, b % 8, c % 8);
    if sb.bitmap_block(b) == sb.bitmap_block(c) && byte_index(b) == byte_index(c) && b % 8 == c % 8 {
        lemma_same_bit(sb, b, c);
    }
    assert(s.bitmap(sb, dev, b).len() == BSIZE);
}

/// Allocation hands out a block that was free, zeroed, and marks it and no other; the contents of
/// all blocks but that one and the bitmap stay.
pub proof fn law_alloc(s: StoreState, sb: SuperBlock, dev: u32)
    requires
        s.sized(),
        s.reserved(sb, dev),
        s.alloc_block(sb, dev) is Some,
        (s.alloc_block(sb, dev)->0).1 is Ok,
    ensures
        ({
            let (s1, r) = s.alloc_block(sb, dev)->0;
            let b = r->Ok_0.0;
            &&& s1.sized()
            &&& s1.reserved(sb, dev)
            &&& 0 < b < sb.size
            &&& !s.used(sb, dev, b)
            &&& !s.is_bitmap(sb, b)
            &&& s1.used(sb, dev, b)
            &&& s1.blocks[(dev, b)] == zeros()
            &&& forall|c: u32|
                c < sb.size && c != b ==> #[trigger] s1.used(sb, dev, c) == s.used(sb, dev, c)
            &&& forall|id: BlockId|
                id != (dev, b) && (id.0 != dev || !s.is_bitmap(sb, id.1))
                    ==> #[trigger] s1.blocks[id] == s.blocks[id]
            &&& s1.held == s.held
            &&& s.readable((dev, b))
        }),
{
    let (s1, r) = s.alloc_block(sb, dev)->0;
    let b = r->Ok_0.0;
    assert(exists|c: u32| s.first_free(sb, dev, c));
    let f = choose|c: u32| s.first_free(sb, dev, c);
    assert(s.first_free(sb, dev, f));
    assert(f == b);
    assert(s.is_bitmap(sb, sb.bitmap_block(b)));
    assert(!s.is_bitmap(sb, b));
    assert(zeros().len() == BSIZE);
    assert(s1.sized()) by {
        assert forall|id: BlockId| (#[trigger] s1.blocks[id]).len() == BSIZE && s1.blocks.contains_key(
            id,
        ) by {
            assert(s.blocks[id].len() == BSIZE);
        }
    }
    assert forall|c: u32| c < sb.size implies #[trigger] s1.used(sb, dev, c) == (s.used(sb, dev, c)
        || c == b) by {
        lemma_mark(s, sb, dev, b, c);
        assert(s.is_bitmap(sb, sb.bitmap_block(c)));
        assert(sb.bitmap_block(c) != b);
    }
    assert forall|c: u32| #[trigger] s1.is_bitmap(sb, c) implies c < sb.size && s1.used(sb, dev, c) by {
        assert(s.is_bitmap(sb, c));
    }
}

/// Freeing a block marks it free and no other; the contents of all blocks but the bitmap stay.
pub proof fn law_free(s: StoreState, sb: SuperBlock, dev: u32, b: u32)
    requires
        s.sized(),
        sb.in_range(),
        b < sb.size,
        s.free_block(sb, dev, b) is Some,
    ensures
        ({
            let s1 = s.free_block(sb, dev, b)->0;
            &&& !s1.used(sb, dev, b)
            &&& forall|c: u32|
                c < sb.size && c != b ==> #[trigger] s1.used(sb, dev, c) == s.used(sb, dev, c)
            &&& forall|id: BlockId|
                id.0 != dev || !s.is_bitmap(sb, id.1) ==> #[trigger] s1.blocks[id] == s.blocks[id]
        }),
{
    assert(s.is_bitmap(sb, sb.bitmap_block(b)));
    lemma_mark(s, sb, dev, b, b);
    let s1 = s.free_block(sb, dev, b)->0;
    assert forall|c: u32| c < sb.size && c != b implies #[trigger] s1.used(sb, dev, c) == s.used(
        sb,
        dev,
        c,
    ) by {
        lemma_mark(s, sb, dev, b, c);
    }
}

/// Freeing what was just allocated brings every block back but the one handed out, which is
/// zeroed: the bitmap is as it was.
pub proof fn law_alloc_free_inverse(s: StoreState, sb: SuperBlock, dev: u32)
    requires
        s.sized(),
        s.reserved(sb, dev),
        s.alloc_block(sb, dev) is Some,
        (s.alloc_block(sb, dev)->0).1 is Ok,
        ({
            let (s1, r) = s.alloc_block(sb, dev)->0;
            s1.free_block(sb, dev, r->Ok_0.0) is Some
        }),
    ensures
        ({
            let (s1, r) = s.alloc_block(sb, dev)->0;
            let s2 = s1.free_block(sb, dev, r->Ok_0.0)->0;
            s2.blocks == s.blocks.insert((dev, r->Ok_0.0), zeros())
        }),
{
    law_alloc(s, sb, dev);
    let (s1, r) = s.alloc_block(sb, dev)->0;
    let b = r->Ok_0.0;
    let s2 = s1.free_block(sb, dev, b)->0;
    assert(exists|c: u32| s.first_free(sb, dev, c));
    let f = choose|c: u32| s.first_free(sb, dev, c);
    assert(f == b);
    assert(s.is_bitmap(sb, sb.bitmap_block(b)));
    let id = (dev, sb.bitmap_block(b));
    let x = s.blocks[id][byte_index(b)];
    lemma_bits(x, b % 8, b % 8);
    assert(s.blocks[id].len() == BSIZE);
    assert(s2.blocks[id] =~= s.blocks[id]);
    assert(s2.blocks =~= s.blocks.insert((dev, b), zeros())) by {
        assert forall|i: BlockId| #[trigger] s2.blocks[i] == s.blocks.insert((dev, b), zeros())[i] by {}
        assert forall|i: BlockId| #[trigger] s2.blocks.contains_key(i) == s.blocks.insert(
            (dev, b),
            zeros(),
        ).contains_key(i) by {
            assert(s.blocks[i].len() == BSIZE);
        }
    }
}

/// The address of the `bn`th block of the file `d`, 0 if it has none.
pub open spec fn addr_of(s: StoreState, dev: u32, d: InodeData, bn: int) -> u32 {
    if bn < NDIRECT {
        d.addrs[bn]
    } else if d.addrs[NDIRECT as int] == 0 {
        0
    } else {
        u32_at(s.blocks[(dev, d.addrs[NDIRECT as int])], 4 * (bn - NDIRECT))
    }
}

/// The `i`th byte of the file `d`.
pub open spec fn byte_of(s: StoreState, dev: u32, d: InodeData, i: int) -> u8 {
    s.blocks[(dev, addr_of(s, dev, d, i / (BSIZE as int)))][i % (BSIZE as int)]
}

/// The bytes `from` up to `to` of the file `d`.
pub open spec fn bytes_of(s: StoreState, dev: u32, d: InodeData, from: int, to: int) -> Seq<u8> {
    Seq::new((to - from) as nat, |i: int| byte_of(s, dev, d, from + i))
}

/// No block of the file `d` is in use by someone else, and there are buffers left: each of its
/// blocks can be read.
#[verifier::opaque]
pub open spec fn quiet(s: StoreState, dev: u32, d: InodeData) -> bool {
    &&& s.held.len() < MAXHELD
    &&& forall|a: u32| #[trigger] owns(s, dev, d, a) ==> s.readable((dev, a))
}

/// A block that has an address can be read.
pub(crate) proof fn lemma_quiet(s: StoreState, dev: u32, d: InodeData, bn: int)
    requires
        quiet(s, dev, d),
        0 <= bn < MAXFILE,
        addr_of(s, dev, d, bn) != 0,
    ensures
        s.readable((dev, addr_of(s, dev, d, bn))),
        bn >= NDIRECT ==> s.readable((dev, d.addrs[NDIRECT as int])),
{
    reveal(quiet);
    assert(owns(s, dev, d, addr_of(s, dev, d, bn)));
    if bn >= NDIRECT {
        assert(owns(s, dev, d, d.addrs[NDIRECT as int]));
    }
}

/// Where a file has the same addresses, and the same buffers are held, its blocks can be read as
/// before.
pub(crate) proof fn lemma_still_quiet(s: StoreState, d: InodeData, t: StoreState, e: InodeData, dev: u32)
    requires
        quiet(s, dev, d),
        t.held == s.held,
        e.addrs[NDIRECT as int] == d.addrs[NDIRECT as int],
        forall|i: int|
            0 <= i < MAXFILE ==> #[trigger] addr_of(t, dev, e, i) == addr_of(s, dev, d, i),
    ensures
        quiet(t, dev, e),
{
    reveal(quiet);
    assert forall|a: u32| #[trigger] owns(t, dev, e, a) implies t.readable((dev, a)) by {
        if a != e.addrs[NDIRECT as int] {
            let i = choose|i: int| 0 <= i < MAXFILE && #[trigger] addr_of(t, dev, e, i) == a;
            assert(addr_of(s, dev, d, i) == a);
        }
        assert(owns(s, dev, d, a));
    }
}

/// Where no buffer is held every file can be read.
pub proof fn law_all_quiet(s: StoreState, dev: u32, d: InodeData)
    requires
        s.held == Set::<BlockId>::empty(),
    ensures
        quiet(s, dev, d),
{
    reveal(quiet);
}

/// The blocks `from` up to `to` of the file `d` have addresses.
pub open spec fn mapped(s: StoreState, dev: u32, d: InodeData, from: int, to: int) -> bool {
    forall|bn: int| from <= bn < to ==> #[trigger] addr_of(s, dev, d, bn) != 0
}

/// A block that has an address is found there, and nothing changes.
pub(crate) proof fn lemma_map_mapped(s: StoreState, sb: SuperBlock, dev: u32, d: InodeData, bn: u32)
    requires
        quiet(s, dev, d),
        d.addrs.len() == NADDRS,
        bn < MAXFILE,
        addr_of(s, dev, d, bn as int) != 0,
    ensures
        s.map_block(sb, dev, d, bn) == Some(
            (s, d, Ok::<u32, FsError>(addr_of(s, dev, d, bn as int))),
        ),
{
    lemma_quiet(s, dev, d, bn as int);
}

proof fn lemma_read_bytes(
    s: StoreState,
    sb: SuperBlock,
    dev: u32,
    d: InodeData,
    offset: int,
    n: int,
    acc: Seq<u8>,
)
    requires
        s.sized(),
        quiet(s, dev, d),
        d.addrs.len() == NADDRS,
        0 <= offset,
        0 <= n,
        offset + n <= MAXFILE * BSIZE,
        n > 0 ==> mapped(
            s,
            dev,
            d,
            offset / (BSIZE as int),
            (offset + n - 1) / (BSIZE as int) + 1,
        ),
    ensures
        s.read_bytes(sb, dev, d, offset, n, acc) == Some(
            (s, d, acc + bytes_of(s, dev, d, offset, offset + n)),
        ),
    decreases n,
{
    if n == 0 {
        assert(acc + bytes_of(s, dev, d, offset, offset + n) =~= acc);
    } else {
        let bn = offset / (BSIZE as int);
        let o = offset % (BSIZE as int);
        let m = chunk(offset, n);
        let a = addr_of(s, dev, d, bn);
        assert(a != 0);
        lemma_map_mapped(s, sb, dev, d, bn as u32);
        lemma_quiet(s, dev, d, bn);
        let part = s.blocks[(dev, a)].subrange(o, o + m);
        assert(s.blocks[(dev, a)].len() == BSIZE);
        assert(part =~= bytes_of(s, dev, d, offset, offset + m)) by {
            assert forall|i: int| 0 <= i < m implies part[i] == byte_of(s, dev, d, offset + i) by {
                assert((offset + i) / (BSIZE as int) == bn && (offset + i) % (BSIZE as int) == o + i);
            }
        }
        if n > m {
            assert((offset + m) / (BSIZE as int) == bn + 1);
        }
        lemma_read_bytes(s, sb, dev, d, offset + m, n - m, acc + part);
        assert(acc + part + bytes_of(s, dev, d, offset + m, offset + n) =~= acc + bytes_of(
            s,
            dev,
            d,
            offset,
            offset + n,
        ));
    }
}

/// Reading a file without holes gives its bytes from `offset` on, as many as asked for and there
/// are, and changes nothing.
pub proof fn law_read(
    s: StoreState,
    sb: SuperBlock,
    dev: u32,
    d: InodeData,
    offset: u32,
    n: u32,
)
    requires
        s.sized(),
        quiet(s, dev, d),
        d.addrs.len() == NADDRS,
        d.size <= MAXFILE * BSIZE,
        mapped(s, dev, d, 0, (d.size + BSIZE - 1) / (BSIZE as int)),
        offset <= d.size,
        offset + n <= u32::MAX,
    ensures
        s.read_inode(sb, dev, d, offset, n) == Some(
            (
                s,
                d,
                Ok::<Seq<u8>, FsError>(
                    bytes_of(
                        s,
                        dev,
                        d,
                        offset as int,
                        if offset + n > d.size {
                            d.size as int
                        } else {
                            offset + n
                        },
                    ),
                ),
            ),
        ),
{
    let n1 = if offset + n > d.size {
        d.size - offset
    } else {
        n as int
    };
    lemma_read_bytes(s, sb, dev, d, offset as int, n1, seq![]);
    assert(seq![] + bytes_of(s, dev, d, offset as int, offset + n1) =~= bytes_of(
        s,
        dev,
        d,
        offset as int,
        offset + n1,
    ));
}

/// `a` is the address of a block of the file `d`, or of its indirect block.
pub open spec fn owns(s: StoreState, dev: u32, d: InodeData, a: u32) -> bool {
    a != 0 && (a == d.addrs[NDIRECT as int] || exists|bn: int|
        0 <= bn < MAXFILE && #[trigger] addr_of(s, dev, d, bn) == a)
}

/// The blocks of the file `d` are marked in use, as are the boot block and the bitmap, and none of
/// them is in the bitmap.
#[verifier::opaque]
pub open spec fn allotted(s: StoreState, sb: SuperBlock, dev: u32, d: InodeData) -> bool {
    &&& s.sized()
    &&& s.reserved(sb, dev)
    &&& d.addrs.len() == NADDRS
    &&& forall|a: u32| #[trigger]
        owns(s, dev, d, a) ==> a < sb.size && s.used(sb, dev, a) && !s.is_bitmap(sb, a)
}

/// No block serves twice in the file `d`: as two blocks of the file, or as one and as its indirect
/// block.
#[verifier::opaque]
pub open spec fn distinct(s: StoreState, dev: u32, d: InodeData) -> bool {
    &&& forall|i: int, j: int|
        #![trigger addr_of(s, dev, d, i), addr_of(s, dev, d, j)]
        0 <= i < j < MAXFILE && addr_of(s, dev, d, i) != 0 ==> addr_of(s, dev, d, i) != addr_of(
            s,
            dev,
            d,
            j,
        )
    &&& forall|i: int|
        0 <= i < MAXFILE && d.addrs[NDIRECT as int] != 0 ==> #[trigger] addr_of(s, dev, d, i)
            != d.addrs[NDIRECT as int]
}

/// The blocks of the file `d` are marked in use, and none of them serves twice: as two blocks of
/// the file, as its indirect block, in the bitmap, or as the block `ibk` that holds the inode.
#[verifier::opaque]
pub open spec fn tidy(s: StoreState, sb: SuperBlock, dev: u32, d: InodeData, ibk: u32) -> bool {
    &&& allotted(s, sb, dev, d)
    &&& distinct(s, dev, d)
    &&& ibk < sb.size && s.used(sb, dev, ibk) && !s.is_bitmap(sb, ibk) && !owns(s, dev, d, ibk)
}

/// From `s` to `t`, mapped blocks of the file stay mapped with the same contents, unless one is the
/// indirect block, too, and blocks but `bn` that had no address have none.
pub open spec fn maps_only(
    s: StoreState,
    d: InodeData,
    t: StoreState,
    e: InodeData,
    dev: u32,
    bn: int,
) -> bool {
    &&& forall|i: int|
        0 <= i < MAXFILE && (i != bn || addr_of(s, dev, d, i) != 0) ==> #[trigger] addr_of(
            t,
            dev,
            e,
            i,
        ) == addr_of(s, dev, d, i)
    &&& forall|i: int|
        0 <= i < MAXFILE && addr_of(s, dev, d, i) != 0 && addr_of(s, dev, d, i)
            != e.addrs[NDIRECT as int] ==> t.blocks[(dev, #[trigger] addr_of(s, dev, d, i))]
            == s.blocks[(dev, addr_of(s, dev, d, i))]
    &&& e == (InodeData { addrs: e.addrs, ..d })
}

/// From `s` to `t`, blocks stay marked in use, and an address that block `bn` or the indirect block
/// of the file has got was not in use before.
pub open spec fn fresh_only(
    s: StoreState,
    d: InodeData,
    t: StoreState,
    e: InodeData,
    sb: SuperBlock,
    dev: u32,
    bn: int,
) -> bool {
    &&& forall|c: u32| c < sb.size && s.used(sb, dev, c) ==> #[trigger] t.used(sb, dev, c)
    &&& 0 <= bn && addr_of(s, dev, d, bn) == 0 && addr_of(t, dev, e, bn) != 0 ==> !s.used(
        sb,
        dev,
        addr_of(t, dev, e, bn),
    ) && addr_of(t, dev, e, bn) != e.addrs[NDIRECT as int] && s.readable(
        (dev, addr_of(t, dev, e, bn)),
    )
    &&& e.addrs[NDIRECT as int] != d.addrs[NDIRECT as int] ==> d.addrs[NDIRECT as int] == 0
        && !s.used(sb, dev, e.addrs[NDIRECT as int]) && s.readable(
        (dev, e.addrs[NDIRECT as int]),
    )
}

proof fn lemma_zero_word(b: Seq<u8>, k: int)
    requires
        b == zeros(),
        0 <= k < NINDIRECT,
    ensures
        u32_at(b, 4 * k) == 0,
{
}

/// Giving place `slot` of the inode an address that was free keeps the blocks of the file in use.
proof fn lemma_map_slot(s: StoreState, sb: SuperBlock, dev: u32, d: InodeData, slot: int)
    requires
        allotted(s, sb, dev, d),
        0 <= slot <= NDIRECT,
        s.map_slot(sb, dev, d, slot) is Some,
        (s.map_slot(sb, dev, d, slot)->0).2 is Ok,
    ensures
        ({
            let (t, e, r) = s.map_slot(sb, dev, d, slot)->0;
            &&& allotted(t, sb, dev, e)
            &&& maps_only(s, d, t, e, dev, slot)
            &&& e.addrs[slot] == r->Ok_0
            &&& r->Ok_0 != 0
            &&& t.held == s.held
            &&& slot == NDIRECT ==> forall|i: int|
                0 <= i < MAXFILE ==> #[trigger] addr_of(t, dev, e, i) == addr_of(s, dev, d, i)
            &&& fresh_only(
                s,
                d,
                t,
                e,
                sb,
                dev,
                if slot == NDIRECT {
                    -1
                } else {
                    slot
                },
            )
        }),
{
    reveal(allotted);
    let (t, e, r) = s.map_slot(sb, dev, d, slot)->0;
    if d.addrs[slot] == 0 {
        law_alloc(s, sb, dev);
        let b = r->Ok_0;
        assert(!owns(s, dev, d, b));
        let ib = d.addrs[NDIRECT as int];
        assert forall|i: int| 0 <= i < MAXFILE && i != slot implies #[trigger] addr_of(t, dev, e, i)
            == addr_of(s, dev, d, i) by {
            if i >= NDIRECT {
                if slot == NDIRECT {
                    lemma_zero_word(t.blocks[(dev, b)], i - NDIRECT);
                } else if ib != 0 {
                    assert(owns(s, dev, d, ib));
                    assert(t.blocks[(dev, ib)] == s.blocks[(dev, ib)]);
                }
            }
        }
        if slot == NDIRECT {
            lemma_zero_word(t.blocks[(dev, b)], 0);
            assert(addr_of(t, dev, e, slot) == 0);
        } else {
            assert(addr_of(t, dev, e, slot) == b);
        }
        assert forall|a: u32| #[trigger] owns(t, dev, e, a) implies a < sb.size && t.used(
            sb,
            dev,
            a,
        ) && !t.is_bitmap(sb, a) by {
            if a != b {
                if exists|bn: int| 0 <= bn < MAXFILE && #[trigger] addr_of(t, dev, e, bn) == a {
                    let bn = choose|bn: int|
                        0 <= bn < MAXFILE && #[trigger] addr_of(t, dev, e, bn) == a;
                    assert(addr_of(s, dev, d, bn) == a);
                }
                assert(owns(s, dev, d, a));
                assert(s.used(sb, dev, a));
                assert(s.is_bitmap(sb, a) == t.is_bitmap(sb, a));
            } else {
                assert(s.is_bitmap(sb, b) == t.is_bitmap(sb, b));
            }
        }
        assert forall|i: int| 0 <= i < MAXFILE && addr_of(s, dev, d, i) != 0 implies t.blocks[(
            dev,
            #[trigger] addr_of(s, dev, d, i),
        )] == s.blocks[(dev, addr_of(s, dev, d, i))] by {
            assert(owns(s, dev, d, addr_of(s, dev, d, i)));
        }
        assert(ib != 0 ==> owns(s, dev, d, ib));
    } else {
        assert(owns(s, dev, d, d.addrs[slot])) by {
            if slot < NDIRECT {
                assert(addr_of(s, dev, d, slot) == d.addrs[slot]);
            }
        }
    }
}

proof fn lemma_word_splice(b: Seq<u8>, k: int, v: u32, j: int)
    requires
        b.len() == BSIZE,
        0 <= k < NINDIRECT,
        0 <= j < NINDIRECT,
    ensures
        u32_at(splice(b, 4 * k, u32_bytes(v)), 4 * j) == (if j == k {
            v
        } else {
            u32_at(b, 4 * j)
        }),
{
    let t = splice(b, 4 * k, u32_bytes(v));
    if j == k {
        assert(t.subrange(4 * k, 4 * k + 4) =~= u32_bytes(v));
        lemma_u32_at(t, 4 * k, v);
    } else {
        assert(t[4 * j] == b[4 * j]);
        assert(t[4 * j + 1] == b[4 * j + 1]);
        assert(t[4 * j + 2] == b[4 * j + 2]);
        assert(t[4 * j + 3] == b[4 * j + 3]);
    }
}

/// Writing a block that is neither in the bitmap nor changes addresses keeps the file tidy.
pub(crate) proof fn lemma_tidy_write(
    s: StoreState,
    sb: SuperBlock,
    dev: u32,
    d: InodeData,
    ibk: u32,
    a: u32,
    data: Seq<u8>,
)
    requires
        tidy(s, sb, dev, d, ibk),
        !s.is_bitmap(sb, a),
        a != d.addrs[NDIRECT as int] || d.addrs[NDIRECT as int] == 0,
        data.len() == BSIZE,
    ensures
        tidy(s.write((dev, a), data), sb, dev, d, ibk),
        forall|i: int|
            0 <= i < MAXFILE ==> #[trigger] addr_of(s.write((dev, a), data), dev, d, i) == addr_of(
                s,
                dev,
                d,
                i,
            ),
{
    reveal(tidy);
    reveal(allotted);
    reveal(distinct);
    let t = s.write((dev, a), data);
    assert(t.sized()) by {
        assert forall|id: BlockId| (#[trigger] t.blocks[id]).len() == BSIZE && t.blocks.contains_key(
            id,
        ) by {
            assert(s.blocks[id].len() == BSIZE);
        }
    }
    assert forall|c: u32| c < sb.size implies #[trigger] t.used(sb, dev, c) == s.used(sb, dev, c) by {
        assert(s.is_bitmap(sb, sb.bitmap_block(c)));
    }
    assert forall|c: u32| #[trigger] t.is_bitmap(sb, c) == s.is_bitmap(sb, c) by {}
    assert forall|i: int| 0 <= i < MAXFILE implies #[trigger] addr_of(t, dev, d, i) == addr_of(
        s,
        dev,
        d,
        i,
    ) by {}
    assert forall|x: u32| #[trigger] owns(t, dev, d, x) implies owns(s, dev, d, x) by {
        if exists|bn: int| 0 <= bn < MAXFILE && #[trigger] addr_of(t, dev, d, bn) == x {
            let bn = choose|bn: int| 0 <= bn < MAXFILE && #[trigger] addr_of(t, dev, d, bn) == x;
            assert(addr_of(s, dev, d, bn) == x);
        }
    }
}

/// What giving place `k` of the indirect block the address `b`, which was free, changes.
#[verifier::opaque]
spec fn given(s: StoreState, sb: SuperBlock, dev: u32, d: InodeData, t: StoreState, k: int, b: u32) -> bool {
    &&& t.sized()
    &&& t.reserved(sb, dev)
    &&& t.held == s.held
    &&& 0 < b < sb.size
    &&& !s.used(sb, dev, b)
    &&& s.readable((dev, b))
    &&& !s.is_bitmap(sb, b)
    &&& forall|c: u32|
        c < sb.size ==> #[trigger] t.used(sb, dev, c) == (s.used(sb, dev, c) || c == b)
    &&& forall|i: int|
        0 <= i < MAXFILE ==> #[trigger] addr_of(t, dev, d, i) == (if i == NDIRECT + k {
            b
        } else {
            addr_of(s, dev, d, i)
        })
    &&& forall|a: u32| #[trigger]
        owns(s, dev, d, a) && a != d.addrs[NDIRECT as int] ==> t.blocks[(dev, a)] == s.blocks[(
            dev,
            a,
        )]
}

proof fn lemma_given(s: StoreState, sb: SuperBlock, dev: u32, d: InodeData, k: int)
    requires
        allotted(s, sb, dev, d),
        0 <= k < NINDIRECT,
        d.addrs[NDIRECT as int] != 0,
        addr_of(s, dev, d, NDIRECT + k) == 0,
        s.map_indirect(sb, dev, d, d.addrs[NDIRECT as int], k) is Some,
        (s.map_indirect(sb, dev, d, d.addrs[NDIRECT as int], k)->0).2 is Ok,
    ensures
        ({
            let (t, e, r) = s.map_indirect(sb, dev, d, d.addrs[NDIRECT as int], k)->0;
            given(s, sb, dev, d, t, k, r->Ok_0) && e == d
        }),
{
    reveal(allotted);
    reveal(given);
    let ib = d.addrs[NDIRECT as int];
    let id = (dev, ib);
    let (t, e, r) = s.map_indirect(sb, dev, d, ib, k)->0;
    assert(owns(s, dev, d, ib));
    let h = s.hold(id);
    assert(h.sized()) by {
        assert forall|x: BlockId| (#[trigger] h.blocks[x]).len() == BSIZE && h.blocks.contains_key(
            x,
        ) by {
            assert(s.blocks[x].len() == BSIZE);
        }
    }
    assert forall|c: u32| #[trigger] h.is_bitmap(sb, c) == s.is_bitmap(sb, c) by {}
    assert forall|c: u32| #[trigger] h.used(sb, dev, c) == s.used(sb, dev, c) by {}
    assert(h.reserved(sb, dev));
    law_alloc(h, sb, dev);
    let (s1, rb) = h.alloc_block(sb, dev)->0;
    let b = rb->Ok_0.0;
    let nb = splice(s.blocks[id], 4 * k, u32_bytes(b));
    assert(t.blocks == s1.blocks.insert(id, nb));
    assert(s.blocks[id].len() == BSIZE);
    assert(t.held =~= s.held);
    assert(t.sized()) by {
        assert forall|x: BlockId| (#[trigger] t.blocks[x]).len() == BSIZE && t.blocks.contains_key(
            x,
        ) by {
            assert(s1.blocks[x].len() == BSIZE);
        }
    }
    assert forall|c: u32| #[trigger] t.is_bitmap(sb, c) == s.is_bitmap(sb, c) by {}
    assert forall|c: u32| c < sb.size implies #[trigger] t.used(sb, dev, c) == (s.used(sb, dev, c)
        || c == b) by {
        assert(s.is_bitmap(sb, sb.bitmap_block(c)));
        assert(t.used(sb, dev, c) == s1.used(sb, dev, c));
        assert(h.used(sb, dev, c) == s.used(sb, dev, c));
    }
    assert(t.reserved(sb, dev)) by {
        assert forall|c: u32| #[trigger] t.is_bitmap(sb, c) implies c < sb.size && t.used(
            sb,
            dev,
            c,
        ) by {
            assert(s.is_bitmap(sb, c));
        }
        assert(t.used(sb, dev, 0));
    }
    assert forall|i: int| 0 <= i < MAXFILE implies #[trigger] addr_of(t, dev, d, i) == (if i
        == NDIRECT + k {
        b
    } else {
        addr_of(s, dev, d, i)
    }) by {
        if i >= NDIRECT {
            lemma_word_splice(s.blocks[id], k, b, i - NDIRECT);
        }
    }
}

/// Giving place `k` of the indirect block an address that was free keeps the blocks of the file in
/// use.
proof fn lemma_map_indirect(s: StoreState, sb: SuperBlock, dev: u32, d: InodeData, k: int)
    requires
        allotted(s, sb, dev, d),
        0 <= k < NINDIRECT,
        d.addrs[NDIRECT as int] != 0,
        s.map_indirect(sb, dev, d, d.addrs[NDIRECT as int], k) is Some,
        (s.map_indirect(sb, dev, d, d.addrs[NDIRECT as int], k)->0).2 is Ok,
    ensures
        ({
            let (t, e, r) = s.map_indirect(sb, dev, d, d.addrs[NDIRECT as int], k)->0;
            &&& allotted(t, sb, dev, e)
            &&& e == d
            &&& fresh_only(s, d, t, e, sb, dev, NDIRECT + k)
            &&& maps_only(s, d, t, e, dev, NDIRECT + k)
            &&& addr_of(t, dev, e, NDIRECT + k) == r->Ok_0
            &&& r->Ok_0 != 0
            &&& t.held == s.held
        }),
{
    let ib = d.addrs[NDIRECT as int];
    let (t, e, r) = s.map_indirect(sb, dev, d, ib, k)->0;
    let bn = NDIRECT + k;
    if addr_of(s, dev, d, bn) == 0 {
        lemma_given(s, sb, dev, d, k);
        reveal(allotted);
        reveal(given);
        let b = r->Ok_0;
        assert(owns(s, dev, d, ib));
        assert(!owns(s, dev, d, b));
        assert forall|a: u32| #[trigger] owns(t, dev, d, a) implies a < sb.size && t.used(
            sb,
            dev,
            a,
        ) && !t.is_bitmap(sb, a) by {
            assert(s.is_bitmap(sb, a) == t.is_bitmap(sb, a));
            if a != b {
                if exists|x: int| 0 <= x < MAXFILE && #[trigger] addr_of(t, dev, d, x) == a {
                    let x = choose|x: int| 0 <= x < MAXFILE && #[trigger] addr_of(t, dev, d, x) == a;
                    assert(addr_of(s, dev, d, x) == a);
                }
                assert(owns(s, dev, d, a));
            }
        }
        assert forall|i: int|
            0 <= i < MAXFILE && addr_of(s, dev, d, i) != 0 && addr_of(s, dev, d, i)
                != ib implies t.blocks[(dev, #[trigger] addr_of(s, dev, d, i))] == s.blocks[(
            dev,
            addr_of(s, dev, d, i),
        )] by {
            assert(owns(s, dev, d, addr_of(s, dev, d, i)));
        }
    }
}

/// Mapping a block keeps the blocks of the file in use, its other blocks and its contents.
pub(crate) proof fn lemma_map_allotted(s: StoreState, sb: SuperBlock, dev: u32, d: InodeData, bn: u32)
    requires
        allotted(s, sb, dev, d),
        bn < MAXFILE,
        s.map_block(sb, dev, d, bn) is Some,
        (s.map_block(sb, dev, d, bn)->0).2 is Ok,
    ensures
        ({
            let (t, e, r) = s.map_block(sb, dev, d, bn)->0;
            &&& allotted(t, sb, dev, e)
            &&& maps_only(s, d, t, e, dev, bn as int)
            &&& fresh_only(s, d, t, e, sb, dev, bn as int)
            &&& addr_of(t, dev, e, bn as int) == r->Ok_0
            &&& r->Ok_0 != 0
            &&& t.held == s.held
        }),
{
    if bn < NDIRECT {
        lemma_map_slot(s, sb, dev, d, bn as int);
    } else {
        lemma_map_slot(s, sb, dev, d, NDIRECT as int);
        let (s1, d1, r1) = s.map_slot(sb, dev, d, NDIRECT as int)->0;
        lemma_map_indirect(s1, sb, dev, d1, bn - NDIRECT);
        let (t, e, r) = s.map_block(sb, dev, d, bn)->0;
        assert forall|i: int|
            0 <= i < MAXFILE && addr_of(s, dev, d, i) != 0 && addr_of(s, dev, d, i)
                != e.addrs[NDIRECT as int] implies t.blocks[(
            dev,
            #[trigger] addr_of(s, dev, d, i),
        )] == s.blocks[(dev, addr_of(s, dev, d, i))] by {
            assert(addr_of(s1, dev, d1, i) == addr_of(s, dev, d, i));
        }
        assert(addr_of(s1, dev, d1, bn as int) == addr_of(s, dev, d, bn as int));
        let a = addr_of(t, dev, e, bn as int);
        assert(allotted(t, sb, dev, e) ==> a < sb.size) by {
            reveal(allotted);
            assert(owns(t, dev, e, a));
        }
        assert forall|c: u32| c < sb.size && s.used(sb, dev, c) implies #[trigger] t.used(
            sb,
            dev,
            c,
        ) by {
            assert(s1.used(sb, dev, c));
        }
        if s.used(sb, dev, a) {
            assert(s1.used(sb, dev, a));
        }
    }
}

/// Where a block cannot be mapped the blocks of the file are in use all the same, and every one is as
/// it was: at most the indirect block is new.
pub(crate) proof fn lemma_map_failed_allotted(s: StoreState, sb: SuperBlock, dev: u32, d: InodeData, bn: u32)
    requires
        allotted(s, sb, dev, d),
        bn < MAXFILE,
        s.map_block(sb, dev, d, bn) is Some,
        (s.map_block(sb, dev, d, bn)->0).2 is Err,
    ensures
        ({
            let (t, e, r) = s.map_block(sb, dev, d, bn)->0;
            &&& allotted(t, sb, dev, e)
            &&& maps_only(s, d, t, e, dev, -1)
            &&& fresh_only(s, d, t, e, sb, dev, -1)
            &&& addr_of(s, dev, d, bn as int) == 0
            &&& t.held == s.held
        }),
{
    let (t, e, r) = s.map_block(sb, dev, d, bn)->0;
    if bn >= NDIRECT {
        let (s1, d1, r1) = s.map_slot(sb, dev, d, NDIRECT as int)->0;
        if r1 is Ok {
            lemma_map_slot(s, sb, dev, d, NDIRECT as int);
            let id = (dev, r1->Ok_0);
            assert(s1.hold(id).release(id) =~= s1) by {
                assert(s1.hold(id).release(id).held =~= s1.held);
            }
            assert(t == s1 && e == d1);
            assert(addr_of(s1, dev, d1, bn as int) == 0);
        }
    }
}

/// Where a file gets addresses that were not in use before, no block serves twice in it.
proof fn lemma_map_distinct(
    s: StoreState,
    d: InodeData,
    t: StoreState,
    e: InodeData,
    sb: SuperBlock,
    dev: u32,
    bn: int,
)
    requires
        allotted(s, sb, dev, d),
        distinct(s, dev, d),
        bn < MAXFILE,
        maps_only(s, d, t, e, dev, bn),
        fresh_only(s, d, t, e, sb, dev, bn),
    ensures
        distinct(t, dev, e),
{
    reveal(allotted);
    reveal(distinct);
    let ib = d.addrs[NDIRECT as int];
    assert(ib != 0 ==> owns(s, dev, d, ib));
    assert forall|i: int| 0 <= i < MAXFILE && addr_of(s, dev, d, i) != 0 implies s.used(
        sb,
        dev,
        #[trigger] addr_of(s, dev, d, i),
    ) by {
        assert(owns(s, dev, d, addr_of(s, dev, d, i)));
    }
    assert forall|i: int, j: int|
        #![trigger addr_of(t, dev, e, i), addr_of(t, dev, e, j)]
        0 <= i < j < MAXFILE && addr_of(t, dev, e, i) != 0 implies addr_of(t, dev, e, i) != addr_of(
        t,
        dev,
        e,
        j,
    ) by {
        assert(addr_of(s, dev, d, i) != 0 ==> s.used(sb, dev, addr_of(s, dev, d, i)));
        assert(addr_of(s, dev, d, j) != 0 ==> s.used(sb, dev, addr_of(s, dev, d, j)));
    }
    assert forall|i: int|
        0 <= i < MAXFILE && e.addrs[NDIRECT as int] != 0 implies #[trigger] addr_of(t, dev, e, i)
        != e.addrs[NDIRECT as int] by {
        assert(addr_of(s, dev, d, i) != 0 ==> s.used(sb, dev, addr_of(s, dev, d, i)));
    }
}

/// The same for a tidy file.
proof fn lemma_map_tidy(
    s: StoreState,
    d: InodeData,
    t: StoreState,
    e: InodeData,
    sb: SuperBlock,
    dev: u32,
    ibk: u32,
    bn: int,
)
    requires
        tidy(s, sb, dev, d, ibk),
        allotted(t, sb, dev, e),
        bn < MAXFILE,
        maps_only(s, d, t, e, dev, bn),
        fresh_only(s, d, t, e, sb, dev, bn),
    ensures
        tidy(t, sb, dev, e, ibk),
{
    reveal(tidy);
    lemma_map_distinct(s, d, t, e, sb, dev, bn);
    assert(s.is_bitmap(sb, ibk) == t.is_bitmap(sb, ibk));
    assert(t.used(sb, dev, ibk));
    if owns(t, dev, e, ibk) {
        if exists|i: int| 0 <= i < MAXFILE && #[trigger] addr_of(t, dev, e, i) == ibk {
            let i = choose|i: int| 0 <= i < MAXFILE && #[trigger] addr_of(t, dev, e, i) == ibk;
            if addr_of(s, dev, d, i) == ibk {
                assert(owns(s, dev, d, ibk));
            }
        }
    }
}

/// Blocks that a file has got can be read, as those that it had.
proof fn lemma_map_quiet(
    s: StoreState,
    d: InodeData,
    t: StoreState,
    e: InodeData,
    sb: SuperBlock,
    dev: u32,
    bn: int,
)
    requires
        quiet(s, dev, d),
        bn < MAXFILE,
        maps_only(s, d, t, e, dev, bn),
        fresh_only(s, d, t, e, sb, dev, bn),
        t.held == s.held,
    ensures
        quiet(t, dev, e),
{
    reveal(quiet);
    assert forall|a: u32| #[trigger] owns(t, dev, e, a) implies t.readable((dev, a)) by {
        if a == e.addrs[NDIRECT as int] {
            if a == d.addrs[NDIRECT as int] {
                assert(owns(s, dev, d, a));
            }
        } else {
            let i = choose|i: int| 0 <= i < MAXFILE && #[trigger] addr_of(t, dev, e, i) == a;
            if addr_of(s, dev, d, i) == a {
                assert(owns(s, dev, d, a));
            }
        }
    }
}

/// Mapping a block keeps the file tidy, its other blocks and its contents.
pub(crate) proof fn lemma_map(s: StoreState, sb: SuperBlock, dev: u32, d: InodeData, ibk: u32, bn: u32)
    requires
        tidy(s, sb, dev, d, ibk),
        bn < MAXFILE,
        s.map_block(sb, dev, d, bn) is Some,
        (s.map_block(sb, dev, d, bn)->0).2 is Ok,
    ensures
        ({
            let (t, e, r) = s.map_block(sb, dev, d, bn)->0;
            &&& tidy(t, sb, dev, e, ibk)
            &&& maps_only(s, d, t, e, dev, bn as int)
            &&& addr_of(t, dev, e, bn as int) == r->Ok_0
            &&& r->Ok_0 != 0
            &&& t.held == s.held
            &&& quiet(s, dev, d) ==> quiet(t, dev, e)
        }),
{
    assert(allotted(s, sb, dev, d)) by {
        reveal(tidy);
    }
    lemma_map_allotted(s, sb, dev, d, bn);
    let (t, e, r) = s.map_block(sb, dev, d, bn)->0;
    lemma_map_tidy(s, d, t, e, sb, dev, ibk, bn as int);
    if quiet(s, dev, d) {
        lemma_map_quiet(s, d, t, e, sb, dev, bn as int);
    }
}

/// Where a block cannot be mapped the file is tidy all the same.
pub(crate) proof fn lemma_map_failed(s: StoreState, sb: SuperBlock, dev: u32, d: InodeData, ibk: u32, bn: u32)
    requires
        tidy(s, sb, dev, d, ibk),
        bn < MAXFILE,
        s.map_block(sb, dev, d, bn) is Some,
        (s.map_block(sb, dev, d, bn)->0).2 is Err,
    ensures
        ({
            let (t, e, r) = s.map_block(sb, dev, d, bn)->0;
            &&& tidy(t, sb, dev, e, ibk)
            &&& maps_only(s, d, t, e, dev, -1)
            &&& addr_of(s, dev, d, bn as int) == 0
            &&& t.held == s.held
            &&& quiet(s, dev, d) ==> quiet(t, dev, e)
        }),
{
    assert(allotted(s, sb, dev, d)) by {
        reveal(tidy);
    }
    lemma_map_failed_allotted(s, sb, dev, d, bn);
    let (t, e, r) = s.map_block(sb, dev, d, bn)->0;
    lemma_map_tidy(s, d, t, e, sb, dev, ibk, -1);
    if quiet(s, dev, d) {
        lemma_map_quiet(s, d, t, e, sb, dev, -1);
    }
}

/// A block of a file has an address that is not 0, and mapping it a second time gives the same and
/// allocates nothing. Beyond the largest file nothing can be mapped, and nothing is allocated. The
/// other blocks of the file, and what they hold, stay as they are.
///
/// The file is any whose blocks are marked in use.
pub proof fn law_map(s: StoreState, sb: SuperBlock, dev: u32, d: InodeData, bn: u32)
    requires
        allotted(s, sb, dev, d),
        s.map_block(sb, dev, d, bn) is Some,
    ensures
        ({
            let (t, e, r) = s.map_block(sb, dev, d, bn)->0;
            &&& allotted(t, sb, dev, e)
            &&& maps_only(s, d, t, e, dev, bn as int)
            &&& distinct(s, dev, d) ==> distinct(t, dev, e)
            &&& d.addrs[NDIRECT as int] != 0 ==> e.addrs[NDIRECT as int] == d.addrs[NDIRECT as int]
            &&& t.held == s.held
            &&& match r {
                Ok(a) => {
                    &&& bn < MAXFILE
                    &&& a != 0
                    &&& addr_of(t, dev, e, bn as int) == a
                    &&& t.map_block(sb, dev, e, bn) == Some((t, e, Ok::<u32, FsError>(a)))
                },
                Err(x) => {
                    &&& x == FsError::OutOfRange <==> bn >= MAXFILE
                    &&& bn >= MAXFILE ==> t == s && e == d
                },
            }
        }),
{
    let (t, e, r) = s.map_block(sb, dev, d, bn)->0;
    if bn < MAXFILE {
        if r is Ok {
            lemma_map_allotted(s, sb, dev, d, bn);
            if distinct(s, dev, d) {
                lemma_map_distinct(s, d, t, e, sb, dev, bn as int);
            }
            if bn >= NDIRECT {
                let (s1, d1, r1) = s.map_slot(sb, dev, d, NDIRECT as int)->0;
                reveal(allotted);
                lemma_map_slot(s, sb, dev, d, NDIRECT as int);
                lemma_map_indirect(s1, sb, dev, d1, bn - NDIRECT);
                assert(t.readable((dev, e.addrs[NDIRECT as int])));
            }
        } else {
            lemma_map_failed_allotted(s, sb, dev, d, bn);
            if distinct(s, dev, d) {
                lemma_map_distinct(s, d, t, e, sb, dev, -1);
            }
        }
    }
}

/// Mapping the blocks `bns` of the file `d`, one after the other, whatever comes of each.
pub open spec fn map_each(s: StoreState, sb: SuperBlock, dev: u32, d: InodeData, bns: Seq<u32>) -> Option<
    (StoreState, InodeData),
>
    decreases bns.len(),
{
    if bns.len() == 0 {
        Some((s, d))
    } else {
        match s.map_block(sb, dev, d, bns[0]) {
            None => None,
            Some((t, e, _)) => map_each(t, sb, dev, e, bns.skip(1)),
        }
    }
}

/// A block that has an address keeps it however many other blocks are mapped: mapping it then gives
/// that address, and allocates nothing.
pub proof fn law_map_stays(
    s: StoreState,
    sb: SuperBlock,
    dev: u32,
    d: InodeData,
    bn: u32,
    bns: Seq<u32>,
)
    requires
        allotted(s, sb, dev, d),
        s.map_block(sb, dev, d, bn) is Some,
        (s.map_block(sb, dev, d, bn)->0).2 is Ok,
        ({
            let (t, e, r) = s.map_block(sb, dev, d, bn)->0;
            map_each(t, sb, dev, e, bns) is Some
        }),
    ensures
        ({
            let (t, e, r) = s.map_block(sb, dev, d, bn)->0;
            let (u, f) = map_each(t, sb, dev, e, bns)->0;
            u.map_block(sb, dev, f, bn) == Some((u, f, r))
        }),
    decreases bns.len(),
{
    law_map(s, sb, dev, d, bn);
    let (t, e, r) = s.map_block(sb, dev, d, bn)->0;
    if bns.len() > 0 {
        let (u, f, q) = t.map_block(sb, dev, e, bns[0])->0;
        law_map(t, sb, dev, e, bns[0]);
        assert(addr_of(u, dev, f, bn as int) == r->Ok_0);
        lemma_map_again(t, u, sb, dev, e, f, bn);
        law_map_stays(u, sb, dev, f, bn, bns.skip(1));
    }
}

/// A block that can be mapped in `t` can be in `u`, where it has the same address and the same
/// buffers are held.
proof fn lemma_map_again(
    t: StoreState,
    u: StoreState,
    sb: SuperBlock,
    dev: u32,
    e: InodeData,
    f: InodeData,
    bn: u32,
)
    requires
        allotted(t, sb, dev, e),
        allotted(u, sb, dev, f),
        bn < MAXFILE,
        addr_of(t, dev, e, bn as int) != 0,
        addr_of(u, dev, f, bn as int) == addr_of(t, dev, e, bn as int),
        u.held == t.held,
        e.addrs[NDIRECT as int] != 0 ==> f.addrs[NDIRECT as int] == e.addrs[NDIRECT as int],
        t.map_block(sb, dev, e, bn) is Some,
    ensures
        u.map_block(sb, dev, f, bn) == Some(
            (u, f, Ok::<u32, FsError>(addr_of(u, dev, f, bn as int))),
        ),
{
    reveal(allotted);
}

/// Two blocks of a file in which no block serves twice never get the same address, however many
/// others are mapped between and before them.
pub proof fn law_map_apart(
    s: StoreState,
    sb: SuperBlock,
    dev: u32,
    d: InodeData,
    bns: Seq<u32>,
    i: u32,
    j: u32,
)
    requires
        allotted(s, sb, dev, d),
        distinct(s, dev, d),
        map_each(s, sb, dev, d, bns) is Some,
        i < j < MAXFILE,
    ensures
        ({
            let (t, e) = map_each(s, sb, dev, d, bns)->0;
            &&& allotted(t, sb, dev, e)
            &&& distinct(t, dev, e)
            &&& addr_of(t, dev, e, i as int) != 0 ==> addr_of(t, dev, e, i as int) != addr_of(
                t,
                dev,
                e,
                j as int,
            )
        }),
    decreases bns.len(),
{
    if bns.len() > 0 {
        law_map(s, sb, dev, d, bns[0]);
        let (t, e, r) = s.map_block(sb, dev, d, bns[0])->0;
        law_map_apart(t, sb, dev, e, bns.skip(1), i, j);
    } else {
        reveal(distinct);
    }
}

/// A file without blocks owns none.
proof fn lemma_owns_none(s: StoreState, dev: u32, d: InodeData, a: u32)
    requires
        d.addrs == Seq::new(NADDRS as nat, |i: int| 0u32),
    ensures
        !owns(s, dev, d, a),
{
    if owns(s, dev, d, a) {
        let bn = choose|bn: int| 0 <= bn < MAXFILE && #[trigger] addr_of(s, dev, d, bn) == a;
    }
}

/// A file that has no blocks yet is one of which the laws on mapping speak, and so is every file that
/// is made from it.
pub proof fn law_new_file(s: StoreState, sb: SuperBlock, dev: u32, d: InodeData)
    requires
        s.sized(),
        s.reserved(sb, dev),
        d.addrs == Seq::new(NADDRS as nat, |i: int| 0u32),
    ensures
        allotted(s, sb, dev, d),
        distinct(s, dev, d),
        forall|a: u32| !#[trigger] owns(s, dev, d, a),
{
    reveal(allotted);
    reveal(distinct);
    assert forall|a: u32| !#[trigger] owns(s, dev, d, a) by {
        lemma_owns_none(s, dev, d, a);
    }
}

/// Nobody uses a block of a file that has none.
pub proof fn law_new_file_quiet(s: StoreState, dev: u32, d: InodeData)
    requires
        s.held.len() < MAXHELD,
        d.addrs == Seq::new(NADDRS as nat, |i: int| 0u32),
    ensures
        quiet(s, dev, d),
{
    reveal(quiet);
    assert forall|a: u32| !#[trigger] owns(s, dev, d, a) by {
        lemma_owns_none(s, dev, d, a);
    }
}

/// What writing `src` at `offset` leaves: its bytes there, everything else that was mapped as it
/// was.
#[verifier::opaque]
pub open spec fn wrote(
    s: StoreState,
    d: InodeData,
    t: StoreState,
    e: InodeData,
    dev: u32,
    offset: int,
    src: Seq<u8>,
) -> bool {
    &&& e == (InodeData { addrs: e.addrs, ..d })
    &&& forall|i: int|
        offset <= i < offset + src.len() ==> #[trigger] byte_of(t, dev, e, i) == src[i - offset]
            && addr_of(t, dev, e, i / (BSIZE as int)) != 0
    &&& forall|i: int|
        0 <= i < MAXFILE * BSIZE && !(offset <= i < offset + src.len()) && addr_of(
            s,
            dev,
            d,
            i / (BSIZE as int),
        ) != 0 ==> #[trigger] byte_of(t, dev, e, i) == byte_of(s, dev, d, i)
    &&& forall|bn: int|
        0 <= bn < MAXFILE && addr_of(s, dev, d, bn) != 0 ==> #[trigger] addr_of(t, dev, e, bn)
            == addr_of(s, dev, d, bn)
}

/// One step of a write, within one block.
pub(crate) proof fn lemma_write_step(
    s: StoreState,
    sb: SuperBlock,
    dev: u32,
    d: InodeData,
    ibk: u32,
    offset: int,
    part: Seq<u8>,
)
    requires
        tidy(s, sb, dev, d, ibk),
        0 <= offset,
        offset + part.len() <= MAXFILE * BSIZE,
        offset % (BSIZE as int) + part.len() <= BSIZE,
        0 < part.len(),
        s.map_block(sb, dev, d, (offset / (BSIZE as int)) as u32) is Some,
        (s.map_block(sb, dev, d, (offset / (BSIZE as int)) as u32)->0).2 is Ok,
    ensures
        ({
            let (s1, e, r) = s.map_block(sb, dev, d, (offset / (BSIZE as int)) as u32)->0;
            let id = (dev, r->Ok_0);
            let t = s1.write(id, splice(s1.blocks[id], offset % (BSIZE as int), part));
            tidy(t, sb, dev, e, ibk) && wrote(s, d, t, e, dev, offset, part) && t.held == s.held && (
            quiet(s, dev, d) ==> quiet(t, dev, e))
        }),
{
    reveal(tidy);
    reveal(allotted);
    reveal(distinct);
    reveal(wrote);
    let bn = offset / (BSIZE as int);
    let o = offset % (BSIZE as int);
    lemma_map(s, sb, dev, d, ibk, bn as u32);
    let (s1, e, r) = s.map_block(sb, dev, d, bn as u32)->0;
    let a = r->Ok_0;
    let id = (dev, a);
    let nb = splice(s1.blocks[id], o, part);
    let t = s1.write(id, nb);
    assert(owns(s1, dev, e, a));
    assert(s1.blocks[id].len() == BSIZE);
    lemma_tidy_write(s1, sb, dev, e, ibk, a, nb);
    if quiet(s, dev, d) {
        lemma_still_quiet(s1, e, t, e, dev);
    }
    assert forall|i: int| offset <= i < offset + part.len() implies #[trigger] byte_of(t, dev, e, i)
        == part[i - offset] && addr_of(t, dev, e, i / (BSIZE as int)) != 0 by {
        assert(i / (BSIZE as int) == bn && i % (BSIZE as int) == o + (i - offset));
    }
    assert forall|i: int|
        0 <= i < MAXFILE * BSIZE && !(offset <= i < offset + part.len()) && addr_of(
            s,
            dev,
            d,
            i / (BSIZE as int),
        ) != 0 implies #[trigger] byte_of(t, dev, e, i) == byte_of(s, dev, d, i) by {
        let j = i / (BSIZE as int);
        let x = addr_of(s, dev, d, j);
        assert(addr_of(s1, dev, e, j) == x);
        assert(addr_of(t, dev, e, j) == x);
        assert(s1.blocks[(dev, x)] == s.blocks[(dev, x)]);
        if j != bn {
            assert(addr_of(s1, dev, e, bn) == a);
            assert(x != a);
        }
    }
}

/// Where at most a block was mapped nothing was written.
pub(crate) proof fn lemma_wrote_nothing(
    s: StoreState,
    d: InodeData,
    t: StoreState,
    e: InodeData,
    sb: SuperBlock,
    dev: u32,
    ibk: u32,
    bn: int,
    offset: int,
)
    requires
        maps_only(s, d, t, e, dev, bn),
        tidy(t, sb, dev, e, ibk),
    ensures
        wrote(s, d, t, e, dev, offset, Seq::<u8>::empty()),
{
    reveal(wrote);
    reveal(tidy);
    reveal(distinct);
    assert forall|i: int|
        0 <= i < MAXFILE * BSIZE && addr_of(s, dev, d, i / (BSIZE as int)) != 0 implies #[trigger] byte_of(
        t,
        dev,
        e,
        i,
    ) == byte_of(s, dev, d, i) by {
        let j = i / (BSIZE as int);
        assert(addr_of(t, dev, e, j) == addr_of(s, dev, d, j));
    }
}

/// Two writes, one behind the other, are one.
pub(crate) proof fn lemma_wrote_both(
    s: StoreState,
    d: InodeData,
    t: StoreState,
    e: InodeData,
    u: StoreState,
    f: InodeData,
    dev: u32,
    offset: int,
    one: Seq<u8>,
    two: Seq<u8>,
)
    requires
        0 <= offset,
        offset + one.len() + two.len() <= MAXFILE * BSIZE,
        wrote(s, d, t, e, dev, offset, one),
        wrote(t, e, u, f, dev, offset + one.len(), two),
    ensures
        wrote(s, d, u, f, dev, offset, one + two),
{
    reveal(wrote);
    let m = one.len();
    let src = one + two;
    assert forall|i: int| offset <= i < offset + src.len() implies #[trigger] byte_of(u, dev, f, i)
        == src[i - offset] && addr_of(u, dev, f, i / (BSIZE as int)) != 0 by {
        if i < offset + m {
            assert(byte_of(t, dev, e, i) == one[i - offset]);
            assert(addr_of(t, dev, e, i / (BSIZE as int)) != 0);
        } else {
            assert(byte_of(u, dev, f, i) == two[i - (offset + m)]);
        }
    }
    assert forall|i: int|
        0 <= i < MAXFILE * BSIZE && !(offset <= i < offset + src.len()) && addr_of(
            s,
            dev,
            d,
            i / (BSIZE as int),
        ) != 0 implies #[trigger] byte_of(u, dev, f, i) == byte_of(s, dev, d, i) by {
        assert(byte_of(t, dev, e, i) == byte_of(s, dev, d, i));
        assert(addr_of(t, dev, e, i / (BSIZE as int)) != 0);
    }
    assert forall|k: int| 0 <= k < MAXFILE && addr_of(s, dev, d, k) != 0 implies #[trigger] addr_of(
        u,
        dev,
        f,
        k,
    ) == addr_of(s, dev, d, k) by {
        assert(addr_of(t, dev, e, k) == addr_of(s, dev, d, k));
    }
}

proof fn lemma_write_bytes(
    s: StoreState,
    sb: SuperBlock,
    dev: u32,
    d: InodeData,
    ibk: u32,
    offset: int,
    src: Seq<u8>,
)
    requires
        tidy(s, sb, dev, d, ibk),
        0 <= offset,
        offset + src.len() <= MAXFILE * BSIZE,
        s.write_bytes(sb, dev, d, offset, src) is Some,
    ensures
        ({
            let (t, e, end) = s.write_bytes(sb, dev, d, offset, src)->0;
            &&& offset <= end <= offset + src.len()
            &&& tidy(t, sb, dev, e, ibk)
            &&& wrote(s, d, t, e, dev, offset, src.take(end - offset))
            &&& t.held == s.held
            &&& quiet(s, dev, d) ==> quiet(t, dev, e)
        }),
    decreases src.len(),
{
    if src.len() > 0 {
        let m = chunk(offset, src.len() as int);
        let bn = offset / (BSIZE as int);
        match s.map_block(sb, dev, d, bn as u32)->0 {
            (s1, e, Ok(a)) => {
                let id = (dev, a);
                let t = s1.write(
                    id,
                    splice(s1.blocks[id], offset % (BSIZE as int), src.take(m)),
                );
                lemma_write_step(s, sb, dev, d, ibk, offset, src.take(m));
                lemma_write_bytes(t, sb, dev, e, ibk, offset + m, src.skip(m));
                let (u, f, end) = t.write_bytes(sb, dev, e, offset + m, src.skip(m))->0;
                let more = src.skip(m).take(end - offset - m);
                lemma_wrote_both(s, d, t, e, u, f, dev, offset, src.take(m), more);
                assert(src.take(m) + more =~= src.take(end - offset));
            },
            (s1, e, Err(_)) => {
                lemma_map_failed(s, sb, dev, d, ibk, bn as u32);
                lemma_wrote_nothing(s, d, s1, e, sb, dev, ibk, -1, offset);
                assert(src.take(0) =~= Seq::<u8>::empty());
            },
        }
    } else {
        assert(wrote(s, d, s, d, dev, offset, src.take(0))) by {
            reveal(wrote);
        }
    }
}

/// Writing the inode, with another size, changes no byte of a tidy file.
pub(crate) proof fn lemma_inode_written(
    s: StoreState,
    t1: StoreState,
    t: StoreState,
    sb: SuperBlock,
    dev: u32,
    inum: u32,
    d: InodeData,
    e1: InodeData,
    e: InodeData,
    offset: int,
    src: Seq<u8>,
)
    requires
        tidy(t1, sb, dev, e1, sb.inode_block(inum)),
        wrote(s, d, t1, e1, dev, offset, src),
        quiet(t1, dev, e1),
        e == (InodeData { size: e.size, ..e1 }),
        t1.update_inode(sb, dev, inum, e) == Some(t),
        0 <= offset,
        offset + src.len() <= MAXFILE * BSIZE,
    ensures
        tidy(t, sb, dev, e, sb.inode_block(inum)),
        wrote(s, InodeData { size: e.size, ..d }, t, e, dev, offset, src),
        quiet(t, dev, e),
        forall|i: int|
            0 <= i < MAXFILE ==> #[trigger] addr_of(t, dev, e, i) == addr_of(t1, dev, e1, i),
{
    reveal(tidy);
    reveal(allotted);
    reveal(distinct);
    reveal(wrote);
    let ibk = sb.inode_block(inum);
    let id = (dev, ibk);
    let nb = splice(t1.blocks[id], dinode_offset(inum), dinode_bytes(e));
    assert(t1.blocks[id].len() == BSIZE);
    assert(t == t1.write(id, nb));
    assert(e1.addrs[NDIRECT as int] != 0 ==> owns(t1, dev, e1, e1.addrs[NDIRECT as int]));
    lemma_tidy_write(t1, sb, dev, e1, ibk, ibk, nb);
    assert forall|i: int| 0 <= i < MAXFILE implies #[trigger] addr_of(t, dev, e, i) == addr_of(
        t1,
        dev,
        e1,
        i,
    ) by {
        assert(addr_of(t, dev, e1, i) == addr_of(t1, dev, e1, i));
    }
    assert forall|x: u32| #[trigger] owns(t, dev, e, x) implies owns(t, dev, e1, x) by {
        if exists|bn: int| 0 <= bn < MAXFILE && #[trigger] addr_of(t, dev, e, bn) == x {
            let bn = choose|bn: int| 0 <= bn < MAXFILE && #[trigger] addr_of(t, dev, e, bn) == x;
            assert(addr_of(t, dev, e1, bn) == x);
        }
    }
    assert(tidy(t, sb, dev, e, ibk)) by {
        assert forall|i: int, j: int|
            #![trigger addr_of(t, dev, e, i), addr_of(t, dev, e, j)]
            0 <= i < j < MAXFILE && addr_of(t, dev, e, i) != 0 implies addr_of(t, dev, e, i) != addr_of(
            t,
            dev,
            e,
            j,
        ) by {
            assert(addr_of(t1, dev, e1, i) != addr_of(t1, dev, e1, j));
        }
    }
    assert forall|i: int|
        0 <= i < MAXFILE * BSIZE && addr_of(t1, dev, e1, i / (BSIZE as int)) != 0 implies #[trigger] byte_of(
        t,
        dev,
        e,
        i,
    ) == byte_of(t1, dev, e1, i) by {
        let a = addr_of(t1, dev, e1, i / (BSIZE as int));
        assert(owns(t1, dev, e1, a));
        assert(a != ibk);
    }
    let d2 = InodeData { size: e.size, ..d };
    assert forall|i: int| 0 <= i < MAXFILE implies #[trigger] addr_of(s, dev, d2, i) == addr_of(
        s,
        dev,
        d,
        i,
    ) by {}
    assert(wrote(s, d2, t, e, dev, offset, src)) by {
        assert forall|i: int| offset <= i < offset + src.len() implies #[trigger] byte_of(t, dev, e, i)
            == src[i - offset] && addr_of(t, dev, e, i / (BSIZE as int)) != 0 by {
            assert(byte_of(t1, dev, e1, i) == src[i - offset]);
        }
        assert forall|i: int|
            0 <= i < MAXFILE * BSIZE && !(offset <= i < offset + src.len()) && addr_of(
                s,
                dev,
                d2,
                i / (BSIZE as int),
            ) != 0 implies #[trigger] byte_of(t, dev, e, i) == byte_of(s, dev, d2, i) by {
            assert(byte_of(s, dev, d2, i) == byte_of(s, dev, d, i));
            assert(byte_of(t1, dev, e1, i) == byte_of(s, dev, d, i));
            assert(addr_of(t1, dev, e1, i / (BSIZE as int)) != 0);
        }
    }
    lemma_still_quiet(t1, e1, t, e, dev);
}

/// What was written is what is read: after a write at `offset` of a tidy file that counts `n` bytes,
/// reading `n` bytes there gives the first `n` bytes of `src`, and every other byte that the file had
/// is as it was. The file reaches as far as it did, or to the end of what was written.
pub proof fn law_read_after_write(
    s: StoreState,
    sb: SuperBlock,
    dev: u32,
    inum: u32,
    d: InodeData,
    offset: u32,
    src: Seq<u8>,
)
    requires
        tidy(s, sb, dev, d, sb.inode_block(inum)),
        quiet(s, dev, d),
        s.write_inode(sb, dev, inum, d, offset, src) is Some,
        (s.write_inode(sb, dev, inum, d, offset, src)->0).2 is Ok,
    ensures
        ({
            let (t, e, r) = s.write_inode(sb, dev, inum, d, offset, src)->0;
            let n = r->Ok_0;
            let part = src.take(n as int);
            &&& n <= src.len()
            &&& t.read_inode(sb, dev, e, offset, n) == Some((t, e, Ok::<Seq<u8>, FsError>(part)))
            &&& wrote(s, InodeData { size: e.size, ..d }, t, e, dev, offset as int, part)
            &&& tidy(t, sb, dev, e, sb.inode_block(inum))
            &&& e.size == (if offset + n > d.size {
                offset + n
            } else {
                d.size as int
            })
            &&& quiet(t, dev, e)
        }),
{
    reveal(tidy);
    reveal(allotted);
    reveal(distinct);
    reveal(wrote);
    let ibk = sb.inode_block(inum);
    let (t, e, r) = s.write_inode(sb, dev, inum, d, offset, src)->0;
    lemma_write_bytes(s, sb, dev, d, ibk, offset as int, src);
    let (t1, e1, end) = s.write_bytes(sb, dev, d, offset as int, src)->0;
    let src = src.take(end - offset);
    assert(r->Ok_0 == src.len());
    lemma_inode_written(s, t1, t, sb, dev, inum, d, e1, e, offset as int, src);
    // reading back
    let n = src.len() as int;
    assert(n > 0 ==> mapped(
        t,
        dev,
        e,
        offset as int / (BSIZE as int),
        (offset + n - 1) / (BSIZE as int) + 1,
    )) by {
        if n > 0 {
            assert forall|bn: int|
                offset as int / (BSIZE as int) <= bn < (offset + n - 1) / (BSIZE as int) + 1 implies #[trigger] addr_of(
                t,
                dev,
                e,
                bn,
            ) != 0 by {
                let i = if bn == offset as int / (BSIZE as int) {
                    offset as int
                } else {
                    bn * BSIZE
                };
                assert(i / (BSIZE as int) == bn);
                assert(byte_of(t, dev, e, i) == src[i - offset]);
            }
        }
    }
    lemma_read_bytes(t, sb, dev, e, offset as int, n, seq![]);
    assert(seq![] + bytes_of(t, dev, e, offset as int, offset + n) =~= src);
}

} // verus!
