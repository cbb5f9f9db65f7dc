//! What an image holds: every file that was added, as it was given.
use vstd::prelude::*;
use crate::fs::dir::{padded, DirEntry};
use crate::fs::inode::{dinode_at, InodeData, InodeType};
use crate::fs::laws::{addr_of, byte_of, bytes_of, law_read, mapped, quiet};
use crate::fs::{FsError, MAXFILE, NADDRS, NDIRECT, ROOTINO};
use crate::le::{lemma_u32_roundtrip, splice, u32_at, u32_bytes};
use crate::mkfs::{
    inode_block,
    is_data,
    layout,
    lemma_blank_ok,
    lemma_write_data,
    lemma_write_inode,
    new_inode,
};
use crate::log::StoreState;
use crate::mkfs::{ ImageState, FSSIZE, NINODES, NMETA};
use crate::virtio_disk::{zeros, BSIZE};

verus! {

/// The number of blocks of a file with `size` bytes.
pub open spec fn block_count(size: int) -> int {
    (size + BSIZE - 1) / (BSIZE as int)
}

impl ImageState {
    /// The address of block `bn` of the file `d`.
    pub open spec fn addr(self, d: InodeData, bn: int) -> u32 {
        if bn < NDIRECT {
            d.addrs[bn]
        } else {
            u32_at(self.blocks[d.addrs[NDIRECT as int] as int], 4 * (bn - NDIRECT))
        }
    }

    /// The first `size` bytes of the file `d`.
    pub open spec fn content(self, d: InodeData, size: int) -> Seq<u8> {
        Seq::new(
            size as nat,
            |i: int| self.blocks[self.addr(d, i / (BSIZE as int)) as int][i % (BSIZE as int)],
        )
    }

    /// Block `b` is in use for a file.
    pub open spec fn in_use(self, b: u32) -> bool {
        NMETA <= b < self.free_block
    }

    /// Block `b` belongs to the file `d` of `n` blocks.
    pub open spec fn owns(self, d: InodeData, n: int, b: u32) -> bool {
        ||| n > NDIRECT && b == d.addrs[NDIRECT as int]
        ||| exists|k: int| 0 <= k < n && #[trigger] self.addr(d, k) == b
    }

    /// The file `d` has exactly `n` blocks, each of its own.
    #[verifier::opaque]
    pub open spec fn tidy(self, d: InodeData, n: int) -> bool {
        &&& d.addrs.len() == NADDRS
        &&& 0 <= n <= MAXFILE
        &&& n <= NDIRECT ==> d.addrs[NDIRECT as int] == 0
        &&& n > NDIRECT ==> self.in_use(d.addrs[NDIRECT as int])
        &&& forall|k: int| 0 <= k < n ==> self.in_use(#[trigger] self.addr(d, k))
        &&& forall|k: int|
            n <= k < MAXFILE && (k < NDIRECT || n > NDIRECT) ==> #[trigger] self.addr(d, k) == 0
        &&& forall|k: int|
            NDIRECT < n && 0 <= k < n ==> #[trigger] self.addr(d, k) != d.addrs[NDIRECT as int]
        &&& forall|j: int, k: int|
            0 <= j < k < n ==> #[trigger] self.addr(d, j) != #[trigger] self.addr(d, k)
    }

    /// The blocks that are not in use are blank.
    pub open spec fn rest_blank(self) -> bool {
        &&& NMETA <= self.free_block
        &&& forall|b: int| self.free_block <= b < FSSIZE ==> #[trigger] self.blocks[b] == zeros()
    }
}

/// From `s` to `t` only blocks changed that were not in use or belong to the file `d` of `n`
/// blocks.
#[verifier::opaque]
pub open spec fn only_own(s: ImageState, t: ImageState, d: InodeData, n: int) -> bool {
    &&& s.free_block <= t.free_block
    &&& s.free_inode == t.free_inode
    &&& s.blocks.len() == t.blocks.len()
    &&& forall|b: int|
        0 <= b < s.free_block && !s.owns(d, n, b as u32) ==> #[trigger] t.blocks[b] == s.blocks[b]
}

proof fn lemma_zero_entry(k: int)
    requires
        0 <= k < 256,
    ensures
        u32_at(zeros(), 4 * k) == 0,
{
}

/// A number that is written leaves the others alone.
proof fn lemma_other_entry(b: Seq<u8>, i: int, j: int, v: u32)
    requires
        b.len() == BSIZE,
        0 <= i < 256,
        0 <= j < 256,
        i != j,
    ensures
        u32_at(splice(b, 4 * i, u32_bytes(v)), 4 * j) == u32_at(b, 4 * j),
{
    let c = splice(b, 4 * i, u32_bytes(v));
    assert(c[4 * j] == b[4 * j] && c[4 * j + 1] == b[4 * j + 1] && c[4 * j + 2] == b[4 * j + 2]
        && c[4 * j + 3] == b[4 * j + 3]);
}

/// A direct block.
proof fn lemma_map_direct(s: ImageState, d: InodeData, n: int, bn: int)
    requires
        s.wf(),
        s.rest_blank(),
        s.tidy(d, n),
        0 <= bn <= n,
        bn < NDIRECT,
        s.map(d, bn) is Ok,
    ensures
        mapped_to(s, d, n, bn),
{
    reveal(ImageState::tidy);
    reveal(mapped_to);
    reveal(only_own);
    let (t, e, b) = s.map(d, bn)->Ok_0;
    if bn < n {
        assert(s.in_use(s.addr(d, bn)));
    } else {
        assert(s.addr(d, bn) == 0);
        assert(t.blocks == s.blocks);
        assert forall|k: int| 0 <= k < n implies #[trigger] t.addr(e, k) == s.addr(d, k) by {}
        assert forall|k: int| n < k < NDIRECT implies #[trigger] t.addr(e, k) == s.addr(d, k) by {}
    }
}

/// What mapping block `bn` of the file `d` comes to: the file has it then, at the address that was
/// given, and everything else is as it was.
#[verifier::opaque]
pub open spec fn mapped_to(s: ImageState, d: InodeData, n: int, bn: int) -> bool {
    let (t, e, b) = s.map(d, bn)->Ok_0;
    let m = if bn < n {
        n
    } else {
        n + 1
    };
    &&& t.wf()
    &&& t.rest_blank()
    &&& t.tidy(e, m)
    &&& t.addr(e, bn) == b
    &&& t.in_use(b)
    &&& e == (InodeData { addrs: e.addrs, ..d })
    &&& forall|k: int| 0 <= k < n ==> #[trigger] t.addr(e, k) == s.addr(d, k)
    &&& forall|k: int|
        0 <= k < n ==> t.blocks[#[trigger] s.addr(d, k) as int] == s.blocks[s.addr(d, k) as int]
    &&& only_own(s, t, d, n)
    &&& n > NDIRECT ==> e.addrs[NDIRECT as int] == d.addrs[NDIRECT as int]
    &&& n <= NDIRECT && m > NDIRECT ==> e.addrs[NDIRECT as int] >= s.free_block
    &&& bn == n ==> b >= s.free_block
    &&& t.free_block == s.free_block + need(m) - need(n)
}

/// The number of blocks that a file of `n` blocks takes, with its indirect block.
pub open spec fn need(n: int) -> int {
    if n > NDIRECT {
        n + 1
    } else {
        n
    }
}

/// The indirect block.
proof fn lemma_map_indirect(s: ImageState, d: InodeData, n: int, bn: int)
    requires
        s.wf(),
        s.rest_blank(),
        s.tidy(d, n),
        NDIRECT <= bn <= n,
        bn < MAXFILE,
        s.map(d, bn) is Ok,
    ensures
        mapped_to(s, d, n, bn),
{
    reveal(ImageState::tidy);
    reveal(mapped_to);
    reveal(only_own);
    let nd = NDIRECT as int;
    let (s1, d1, ib) = s.slot(d, nd)->Ok_0;
    let (t, e, b) = s.map(d, bn)->Ok_0;
    let old = s1.blocks[ib as int];
    assert(s1.blocks == s.blocks);
    assert(e == d1);
    if n == nd {
        assert(ib == s.free_block);
        assert(old == zeros());
        assert forall|k: int| 0 <= k < 256 implies u32_at(old, #[trigger] (4 * k)) == 0 by {
            lemma_zero_entry(k);
        }
    }
    if bn < n {
        assert(s.in_use(s.addr(d, bn)));
        assert(t == s && e == d);
    } else {
        if n > nd {
            assert(s.addr(d, bn) == 0);
        } else {
            lemma_zero_entry(0);
        }
        let nb = splice(old, 4 * (bn - nd), u32_bytes(b));
        assert(b == s1.free_block);
        assert(t.blocks[ib as int] == nb);
        lemma_u32_roundtrip(old, 4 * (bn - nd), b);
        assert forall|k: int| nd <= k < MAXFILE && k != bn implies #[trigger] t.addr(e, k) == u32_at(
            old,
            4 * (k - nd),
        ) by {
            lemma_other_entry(old, bn - nd, k - nd, b);
        }
        assert forall|k: int| 0 <= k < n implies #[trigger] t.addr(e, k) == s.addr(d, k) by {
            if k >= nd {
                assert(n > nd);
            }
        }
        assert forall|k: int| n < k < MAXFILE implies #[trigger] t.addr(e, k) == 0 by {
            if n > nd {
                assert(s.addr(d, k) == 0);
            } else {
                lemma_zero_entry(k - nd);
            }
        }
        lemma_write_data(
            ImageState { free_block: t.free_block, ..s1 },
            ib,
            nb,
        );
        assert(t == (ImageState { free_block: t.free_block, ..s1 }).write(ib, nb));
        assert forall|k: int| 0 <= k < n implies t.blocks[#[trigger] s.addr(d, k) as int]
            == s.blocks[s.addr(d, k) as int] by {
            assert(s.in_use(s.addr(d, k)));
        }
        assert forall|j: int, k: int| 0 <= j < k < n + 1 implies #[trigger] t.addr(e, j)
            != #[trigger] t.addr(e, k) by {
            assert(t.addr(e, j) == s.addr(d, j));
            assert(s.in_use(s.addr(d, j)));
            if k < n {
                assert(t.addr(e, k) == s.addr(d, k));
            }
        }
        assert forall|k: int| 0 <= k < n + 1 implies t.in_use(#[trigger] t.addr(e, k)) && t.addr(
            e,
            k,
        ) != e.addrs[nd] by {
            if k < n {
                assert(t.addr(e, k) == s.addr(d, k));
                assert(s.in_use(s.addr(d, k)));
            }
        }
        assert forall|c: int|
            0 <= c < s.free_block && !s.owns(d, n, c as u32) implies #[trigger] t.blocks[c]
            == s.blocks[c] by {}
    }
}

proof fn lemma_map(s: ImageState, d: InodeData, n: int, bn: int)
    requires
        s.wf(),
        s.rest_blank(),
        s.tidy(d, n),
        0 <= bn <= n,
        bn < MAXFILE,
        s.map(d, bn) is Ok,
    ensures
        mapped_to(s, d, n, bn),
{
    if bn < NDIRECT {
        lemma_map_direct(s, d, n, bn);
    } else {
        lemma_map_indirect(s, d, n, bn);
    }
}

/// Writing a block that the file has changes nothing but that block.
proof fn lemma_write_own(s: ImageState, d: InodeData, n: int, bn: int, bytes: Seq<u8>)
    requires
        s.wf(),
        s.rest_blank(),
        s.tidy(d, n),
        0 <= bn < n,
        bytes.len() == BSIZE,
    ensures
        ({
            let t = s.write(s.addr(d, bn), bytes);
            &&& t.wf()
            &&& t.rest_blank()
            &&& t.tidy(d, n)
            &&& forall|k: int| 0 <= k < n ==> #[trigger] t.addr(d, k) == s.addr(d, k)
            &&& t.blocks[s.addr(d, bn) as int] == bytes
            &&& forall|k: int|
                0 <= k < n && k != bn ==> t.blocks[#[trigger] s.addr(d, k) as int]
                    == s.blocks[s.addr(d, k) as int]
        }),
{
    reveal(ImageState::tidy);
    let b = s.addr(d, bn);
    let t = s.write(b, bytes);
    assert(s.in_use(b));
    lemma_write_data(s, b, bytes);
    assert forall|k: int| 0 <= k < MAXFILE && (k < NDIRECT || n > NDIRECT) implies #[trigger] t.addr(
        d,
        k,
    ) == s.addr(d, k) by {
        if k >= NDIRECT {
            assert(s.addr(d, bn) != d.addrs[NDIRECT as int]);
        }
    }
    assert forall|k: int| 0 <= k < n && k != bn implies t.blocks[#[trigger] s.addr(d, k) as int]
        == s.blocks[s.addr(d, k) as int] by {
        assert(s.in_use(s.addr(d, k)));
        if k < bn {
            assert(s.addr(d, k) != s.addr(d, bn));
        } else {
            assert(s.addr(d, bn) != s.addr(d, k));
        }
    }
    assert forall|j: int, k: int| 0 <= j < k < n implies #[trigger] t.addr(d, j)
        != #[trigger] t.addr(d, k) by {
        assert(t.addr(d, j) == s.addr(d, j));
        assert(t.addr(d, k) == s.addr(d, k));
    }
    assert forall|k: int| 0 <= k < n implies t.in_use(#[trigger] t.addr(d, k)) by {
        assert(t.addr(d, k) == s.addr(d, k));
        assert(s.in_use(s.addr(d, k)));
    }
}

/// One step of writing: a part of the data goes to one block.
pub open spec fn step(s: ImageState, d: InodeData, offset: int, data: Seq<u8>) -> (
    ImageState,
    InodeData,
    int,
) {
    let at = offset % (BSIZE as int);
    let n = if data.len() < BSIZE - at {
        data.len() as int
    } else {
        BSIZE - at
    };
    let (s, d, b) = s.map(d, offset / (BSIZE as int))->Ok_0;
    (s.write(b, splice(s.blocks[b as int], at, data.take(n))), d, n)
}

proof fn lemma_step(s: ImageState, d: InodeData, offset: int, data: Seq<u8>)
    requires
        s.wf(),
        s.rest_blank(),
        s.tidy(d, block_count(offset)),
        0 <= offset,
        offset / (BSIZE as int) < MAXFILE,
        data.len() > 0,
        s.map(d, offset / (BSIZE as int)) is Ok,
    ensures
        ({
            let (t, e, m) = step(s, d, offset, data);
            &&& t.wf()
            &&& t.rest_blank()
            &&& t.tidy(e, block_count(offset + m))
            &&& t.content(e, offset + m) == s.content(d, offset) + data.take(m)
            &&& e == (InodeData { addrs: e.addrs, ..d })
            &&& only_own(s, t, d, block_count(offset))
            &&& t.free_block == s.free_block + need(block_count(offset + m)) - need(
                block_count(offset),
            )
            &&& forall|b: u32| #[trigger]
                t.owns(e, block_count(offset + m), b) ==> s.owns(d, block_count(offset), b) || b
                    >= s.free_block
        }),
{
    let n = block_count(offset);
    let bn = offset / (BSIZE as int);
    let at = offset % (BSIZE as int);
    lemma_map(s, d, n, bn);
    let (t1, e, b) = s.map(d, bn)->Ok_0;
    let (t, _, m) = step(s, d, offset, data);
    let n2 = block_count(offset + m);
    reveal(mapped_to);
    assert(n2 == if bn < n {
        n
    } else {
        n + 1
    });
    let bytes = splice(t1.blocks[b as int], at, data.take(m));
    assert(t1.blocks[b as int].len() == BSIZE);
    lemma_write_own(t1, e, n2, bn, bytes);
    let c = s.content(d, offset) + data.take(m);
    assert forall|i: int| 0 <= i < offset + m implies t.content(e, offset + m)[i] == c[i] by {
        let k = i / (BSIZE as int);
        assert(0 <= k < n2);
        assert(t.addr(e, k) == t1.addr(e, k));
        if i < offset {
            assert(k < n);
            assert(t1.addr(e, k) == s.addr(d, k));
            assert(t1.blocks[s.addr(d, k) as int] == s.blocks[s.addr(d, k) as int]);
            if k != bn {
                assert(t.blocks[t1.addr(e, k) as int] == t1.blocks[t1.addr(e, k) as int]);
            }
        } else {
            assert(k == bn);
            assert(i % (BSIZE as int) == at + (i - offset));
        }
    }
    assert(t.content(e, offset + m) =~= c);
    reveal(only_own);
    assert forall|x: int| 0 <= x < s.free_block && !s.owns(d, n, x as u32) implies #[trigger] t.blocks[x]
        == s.blocks[x] by {
        assert(t1.blocks[x] == s.blocks[x]);
        if x == b {
            assert(bn < n);
            assert(s.addr(d, bn) == b);
        }
    }
    assert forall|x: u32| #[trigger] t.owns(e, n2, x) implies s.owns(d, n, x) || x
        >= s.free_block by {
        if n2 > NDIRECT && x == e.addrs[NDIRECT as int] {
        } else {
            let k = choose|k: int| 0 <= k < n2 && #[trigger] t.addr(e, k) == x;
            assert(t.addr(e, k) == t1.addr(e, k));
            if k < n {
                assert(t1.addr(e, k) == s.addr(d, k));
            } else {
                assert(k == bn);
            }
        }
    }
}

/// What writing `data` at the end of the file `d` comes to.
#[verifier::opaque]
pub open spec fn appended(
    s: ImageState,
    d: InodeData,
    size: int,
    data: Seq<u8>,
    t: ImageState,
    e: InodeData,
) -> bool {
    &&& t.wf()
    &&& t.rest_blank()
    &&& e.size == size + data.len()
    &&& t.tidy(e, block_count(size + data.len()))
    &&& t.content(e, size + data.len()) == s.content(d, size) + data
    &&& e == (InodeData { addrs: e.addrs, size: e.size, ..d })
    &&& only_own(s, t, d, block_count(size))
    &&& t.free_block == s.free_block + need(block_count(size + data.len())) - need(
        block_count(size),
    )
    &&& forall|b: u32| #[trigger]
        t.owns(e, block_count(size + data.len()), b) ==> s.owns(d, block_count(size), b) || b
            >= s.free_block
}

proof fn lemma_put(s: ImageState, d: InodeData, offset: int, data: Seq<u8>)
    requires
        s.wf(),
        s.rest_blank(),
        s.tidy(d, block_count(offset)),
        0 <= offset <= MAXFILE * BSIZE,
        s.put(d, offset, data) is Ok,
    ensures
        ({
            let (t, e) = s.put(d, offset, data)->Ok_0;
            appended(s, d, offset, data, t, e)
        }),
    decreases data.len(),
{
    let (t, e) = s.put(d, offset, data)->Ok_0;
    reveal(appended);
    if data.len() == 0 {
        reveal(only_own);
        assert(t.content(e, offset) =~= s.content(d, offset) + data) by {
            assert forall|i: int| 0 <= i < offset implies t.content(e, offset)[i] == s.content(
                d,
                offset,
            )[i] by {
                assert(t.addr(e, i / (BSIZE as int)) == s.addr(d, i / (BSIZE as int)));
            }
        }
        lemma_same_addrs(s, d, e, block_count(offset));
    } else {
        let (t1, e1, m) = step(s, d, offset, data);
        lemma_step(s, d, offset, data);
        let rest = data.skip(m);
        lemma_put(t1, e1, offset + m, rest);
        assert(data.take(m) + rest =~= data);
        assert(t.content(e, offset + data.len()) =~= s.content(d, offset) + data);
        let n = block_count(offset);
        let n1 = block_count(offset + m);
        let n2 = block_count(offset + data.len());
        assert(offset + m + rest.len() == offset + data.len());
        assert(only_own(s, t, d, n)) by {
            reveal(only_own);
            assert forall|x: int|
                0 <= x < s.free_block && !s.owns(d, n, x as u32) implies #[trigger] t.blocks[x]
                == s.blocks[x] by {
                assert(!t1.owns(e1, n1, x as u32));
                assert(t1.blocks[x] == s.blocks[x]);
            }
        }
        assert forall|x: u32| #[trigger] t.owns(e, n2, x) implies s.owns(d, n, x) || x
            >= s.free_block by {
            assert(t1.owns(e1, n1, x) || x >= t1.free_block);
            reveal(only_own);
        }
    }
}

/// The blocks of a file depend on its addresses alone.
proof fn lemma_same_addrs(s: ImageState, d: InodeData, e: InodeData, n: int)
    requires
        d.addrs == e.addrs,
        s.tidy(d, n),
    ensures
        s.tidy(e, n),
        forall|k: int| #[trigger] s.addr(e, k) == s.addr(d, k),
        forall|b: u32| #[trigger] s.owns(e, n, b) ==> s.owns(d, n, b),
{
    reveal(ImageState::tidy);
    assert forall|k: int| #[trigger] s.addr(e, k) == s.addr(d, k) by {}
    assert forall|b: u32| #[trigger] s.owns(e, n, b) implies s.owns(d, n, b) by {
        if !(n > NDIRECT && b == d.addrs[NDIRECT as int]) {
            let k = choose|k: int| 0 <= k < n && #[trigger] s.addr(e, k) == b;
            assert(s.addr(d, k) == b);
        }
    }
    assert forall|j: int, k: int| 0 <= j < k < n implies #[trigger] s.addr(e, j)
        != #[trigger] s.addr(e, k) by {
        assert(s.addr(d, j) != s.addr(d, k));
    }
}

/// A file whose blocks did not change is what it was.
proof fn lemma_frame(s: ImageState, t: ImageState, d: InodeData, size: int)
    requires
        s.tidy(d, block_count(size)),
        0 <= size,
        s.free_block <= t.free_block,
        forall|b: u32| #[trigger]
            s.owns(d, block_count(size), b) ==> t.blocks[b as int] == s.blocks[b as int],
    ensures
        t.tidy(d, block_count(size)),
        t.content(d, size) == s.content(d, size),
        forall|b: u32| #[trigger]
            t.owns(d, block_count(size), b) == s.owns(d, block_count(size), b),
{
    reveal(ImageState::tidy);
    let n = block_count(size);
    let ib = d.addrs[NDIRECT as int];
    if n > NDIRECT {
        assert(s.owns(d, n, ib));
    }
    assert forall|k: int| 0 <= k < MAXFILE && (k < NDIRECT || n > NDIRECT) implies #[trigger] t.addr(
        d,
        k,
    ) == s.addr(d, k) by {}
    assert forall|k: int| 0 <= k < n implies t.in_use(#[trigger] t.addr(d, k)) by {
        assert(t.addr(d, k) == s.addr(d, k));
        assert(s.in_use(s.addr(d, k)));
    }
    assert forall|j: int, k: int| 0 <= j < k < n implies #[trigger] t.addr(d, j)
        != #[trigger] t.addr(d, k) by {
        assert(t.addr(d, j) == s.addr(d, j));
        assert(t.addr(d, k) == s.addr(d, k));
        assert(s.addr(d, j) != s.addr(d, k));
    }
    assert forall|b: u32| #[trigger] t.owns(d, n, b) == s.owns(d, n, b) by {
        if exists|k: int| 0 <= k < n && #[trigger] t.addr(d, k) == b {
            let k = choose|k: int| 0 <= k < n && #[trigger] t.addr(d, k) == b;
            assert(s.addr(d, k) == b);
        }
        if exists|k: int| 0 <= k < n && #[trigger] s.addr(d, k) == b {
            let k = choose|k: int| 0 <= k < n && #[trigger] s.addr(d, k) == b;
            assert(t.addr(d, k) == b);
        }
    }
    assert forall|i: int| 0 <= i < size implies t.content(d, size)[i] == s.content(d, size)[i] by {
        let k = i / (BSIZE as int);
        assert(0 <= k < n);
        assert(t.addr(d, k) == s.addr(d, k));
        assert(s.owns(d, n, s.addr(d, k)));
    }
    assert(t.content(d, size) =~= s.content(d, size));
}

impl ImageState {
    /// The contents of the file with inode `inum`.
    pub open spec fn file(self, inum: u32) -> Seq<u8> {
        self.content(self.inode(inum), self.inode(inum).size as int)
    }

    /// Block `b` belongs to the file with inode `inum`.
    #[verifier::opaque]
    pub open spec fn belongs(self, inum: u32, b: u32) -> bool {
        self.owns(self.inode(inum), block_count(self.inode(inum).size as int), b)
    }

    /// The file with inode `inum` has exactly the blocks that it needs, each of its own.
    #[verifier::opaque]
    pub open spec fn file_tidy(self, inum: u32) -> bool {
        &&& self.inode(inum).size <= MAXFILE * BSIZE
        &&& self.tidy(self.inode(inum), block_count(self.inode(inum).size as int))
    }

    /// No block belongs to two files.
    pub open spec fn apart(self, i: u32, j: u32) -> bool {
        forall|b: u32| #[trigger] self.belongs(i, b) ==> !self.belongs(j, b)
    }

    /// The image is sound: all its files are tidy, and no block belongs to two of them.
    pub open spec fn sound(self) -> bool {
        &&& self.wf()
        &&& self.rest_blank()
        &&& 1 <= self.free_inode
        &&& forall|k: u32| 1 <= k < self.free_inode ==> #[trigger] self.file_tidy(k)
        &&& forall|i: u32, j: u32|
            1 <= i < self.free_inode && 1 <= j < self.free_inode && i != j ==> #[trigger] self.apart(
                i,
                j,
            )
    }
}

/// Every block of a file is in use.
proof fn lemma_belongs(s: ImageState, inum: u32, b: u32)
    requires
        s.file_tidy(inum),
        s.belongs(inum, b),
    ensures
        s.in_use(b),
{
    reveal(ImageState::belongs);
    reveal(ImageState::file_tidy);
    reveal(ImageState::tidy);
}

/// The blocks before the data are not touched when a file grows.
proof fn lemma_meta_kept(s: ImageState, t: ImageState, inum: u32)
    requires
        s.wf(),
        s.rest_blank(),
        s.file_tidy(inum),
        only_own(s, t, s.inode(inum), block_count(s.inode(inum).size as int)),
    ensures
        forall|b: int| 0 <= b < NMETA ==> #[trigger] t.blocks[b] == s.blocks[b],
        forall|k: u32| k < NINODES ==> #[trigger] t.inode(k) == s.inode(k),
{
    reveal(ImageState::belongs);
    reveal(ImageState::file_tidy);
    reveal(only_own);
    assert forall|b: int| 0 <= b < NMETA implies #[trigger] t.blocks[b] == s.blocks[b] by {
        if s.belongs(inum, b as u32) {
            lemma_belongs(s, inum, b as u32);
        }
    }
    assert forall|k: u32| k < NINODES implies #[trigger] t.inode(k) == s.inode(k) by {
        assert(t.blocks[inode_block(k)] == s.blocks[inode_block(k)]);
    }
}

/// The file with inode `k` is the same in `s` and `t`.
#[verifier::opaque]
pub open spec fn same_file(s: ImageState, t: ImageState, k: u32) -> bool {
    &&& t.file_tidy(k)
    &&& t.file(k) == s.file(k)
    &&& t.inode(k) == s.inode(k)
    &&& forall|b: u32| #[trigger] t.belongs(k, b) == s.belongs(k, b)
}

proof fn lemma_kept(s: ImageState, t: ImageState, k: u32)
    requires
        s.file_tidy(k),
        t.inode(k) == s.inode(k),
        s.free_block <= t.free_block,
        forall|b: u32| #[trigger]
            s.belongs(k, b) ==> t.blocks[b as int] == s.blocks[b as int],
    ensures
        same_file(s, t, k),
{
    reveal(ImageState::belongs);
    reveal(ImageState::file_tidy);
    reveal(same_file);
    let d = s.inode(k);
    let n = block_count(d.size as int);
    assert forall|b: u32| #[trigger] s.owns(d, n, b) implies t.blocks[b as int]
        == s.blocks[b as int] by {
        assert(s.belongs(k, b));
    }
    lemma_frame(s, t, d, d.size as int);
    assert forall|b: u32| #[trigger] t.belongs(k, b) == s.belongs(k, b) by {
        assert(t.owns(d, n, b) == s.owns(d, n, b));
    }
}

/// An image in which one file grew by blocks that were not in use stays sound.
proof fn lemma_sound(s: ImageState, t: ImageState, inum: u32)
    requires
        s.sound(),
        t.wf(),
        t.rest_blank(),
        1 <= inum < t.free_inode,
        t.free_inode == s.free_inode || (t.free_inode == s.free_inode + 1 && inum == s.free_inode),
        forall|k: u32| 1 <= k < s.free_inode && k != inum ==> #[trigger] same_file(s, t, k),
        t.file_tidy(inum),
        forall|b: u32| #[trigger]
            t.belongs(inum, b) ==> (inum < s.free_inode && s.belongs(inum, b)) || b >= s.free_block,
    ensures
        t.sound(),
{
    reveal(same_file);
    assert forall|k: u32| 1 <= k < t.free_inode implies #[trigger] t.file_tidy(k) by {
        if k != inum {
            assert(same_file(s, t, k));
        }
    }
    assert forall|i: u32, j: u32|
        1 <= i < t.free_inode && 1 <= j < t.free_inode && i != j implies #[trigger] t.apart(
        i,
        j,
    ) by {
        if i < s.free_inode && j < s.free_inode {
            assert(s.apart(i, j));
        }
        assert forall|b: u32| #[trigger] t.belongs(i, b) implies !t.belongs(j, b) by {
            if i != inum {
                assert(same_file(s, t, i));
                assert(s.belongs(i, b));
                assert(s.file_tidy(i));
                lemma_belongs(s, i, b);
            }
            if j != inum && t.belongs(j, b) {
                assert(same_file(s, t, j));
                assert(s.belongs(j, b));
                assert(s.file_tidy(j));
                lemma_belongs(s, j, b);
            }
        }
    }
}

/// The inode of a file that grew is written.
proof fn lemma_finish_append(
    s: ImageState,
    inum: u32,
    data: Seq<u8>,
    t1: ImageState,
    e: InodeData,
)
    requires
        s.sound(),
        1 <= inum < s.free_inode,
        appended(s, s.inode(inum), s.inode(inum).size as int, data, t1, e),
    ensures
        ({
            let t = t1.write_inode(inum, e);
            &&& t.wf()
            &&& t.rest_blank()
            &&& t.free_inode == s.free_inode
            &&& t.free_block >= s.free_block
            &&& t.inode(inum) == e
            &&& t.file_tidy(inum)
            &&& t.file(inum) == s.file(inum) + data
            &&& forall|k: u32| k < NINODES && k != inum ==> #[trigger] t.inode(k) == s.inode(k)
            &&& forall|b: int|
                NMETA <= b < s.free_block && !s.belongs(inum, b as u32) ==> #[trigger] t.blocks[b]
                    == s.blocks[b]
            &&& forall|b: u32| #[trigger]
                t.belongs(inum, b) ==> s.belongs(inum, b) || b >= s.free_block
        }),
{
    reveal(ImageState::belongs);
    reveal(ImageState::file_tidy);
    let d = s.inode(inum);
    let size = d.size as int;
    reveal(appended);
    assert(s.file_tidy(inum));
    let t = t1.write_inode(inum, e);
    lemma_meta_kept(s, t1, inum);
    let n2 = block_count(size + data.len());
    assert(e.addrs.len() == NADDRS && n2 <= MAXFILE) by {
        reveal(ImageState::tidy);
    }
    lemma_write_inode(t1, inum, e);
    assert(t.inode(inum) == e);
    assert(t.free_inode == s.free_inode && t.free_block >= s.free_block) by {
        reveal(only_own);
    }
    assert forall|k: u32| k < NINODES && k != inum implies #[trigger] t.inode(k) == s.inode(k) by {
        assert(t1.inode(k) == s.inode(k));
    }
    assert forall|b: int| NMETA <= b < FSSIZE implies #[trigger] t.blocks[b] == t1.blocks[b] by {
        assert(inode_block(inum) < NMETA);
    }
    assert forall|b: u32| #[trigger] t1.owns(e, n2, b) implies t.blocks[b as int]
        == t1.blocks[b as int] by {
        reveal(ImageState::tidy);
        assert(t1.in_use(b));
    }
    lemma_frame(t1, t, e, size + data.len());
    assert forall|b: int| NMETA <= b < s.free_block && !s.belongs(inum, b as u32) implies #[trigger] t.blocks[b]
        == s.blocks[b] by {
        reveal(only_own);
        assert(t1.blocks[b] == s.blocks[b]);
    }
    assert forall|b: u32| #[trigger] t.belongs(inum, b) implies s.belongs(inum, b) || b
        >= s.free_block by {
        assert(t.owns(e, n2, b) == t1.owns(e, n2, b));
    }
}

/// What is appended to a file is what it holds then, behind what it held; all other files are as
/// they were, and the image stays sound.
pub proof fn law_append(s: ImageState, inum: u32, data: Seq<u8>)
    requires
        s.sound(),
        1 <= inum < s.free_inode,
        s.append_inode(inum, data) is Ok,
    ensures
        ({
            let t = s.append_inode(inum, data)->Ok_0;
            &&& t.sound()
            &&& t.file(inum) == s.file(inum) + data
            &&& t.inode(inum) == (InodeData {
                size: t.inode(inum).size,
                addrs: t.inode(inum).addrs,
                ..s.inode(inum)
            })
            &&& t.free_inode == s.free_inode
            &&& forall|k: u32|
                1 <= k < s.free_inode && k != inum ==> #[trigger] same_file(s, t, k)
        }),
{
    let d = s.inode(inum);
    let size = d.size as int;
    assert(s.file_tidy(inum));
    assert(s.tidy(d, block_count(size)) && size <= MAXFILE * BSIZE) by {
        reveal(ImageState::file_tidy);
    }
    lemma_put(s, d, size, data);
    let (t1, e) = s.put(d, size, data)->Ok_0;
    let t = s.append_inode(inum, data)->Ok_0;
    assert(t == t1.write_inode(inum, e));
    lemma_finish_append(s, inum, data, t1, e);
    assert(e == (InodeData { size: e.size, addrs: e.addrs, ..d })) by {
        reveal(appended);
    }
    assert forall|k: u32| 1 <= k < s.free_inode && k != inum implies #[trigger] same_file(
        s,
        t,
        k,
    ) by {
        assert(s.file_tidy(k));
        assert(s.apart(k, inum));
        assert forall|b: u32| #[trigger] s.belongs(k, b) implies t.blocks[b as int]
            == s.blocks[b as int] by {
            lemma_belongs(s, k, b);
        }
        lemma_kept(s, t, k);
    }
    lemma_sound(s, t, inum);
}

/// A new inode is an empty file; all other files are as they were, and the image stays sound.
pub proof fn law_new_inode(s: ImageState, typ: InodeType)
    requires
        s.sound(),
        s.allocate_inode(typ) is Ok,
    ensures
        ({
            let (t, inum) = s.allocate_inode(typ)->Ok_0;
            &&& t.sound()
            &&& inum == s.free_inode
            &&& t.free_inode == inum + 1
            &&& t.inode(inum) == new_inode(typ)
            &&& t.file(inum) == Seq::<u8>::empty()
            &&& forall|k: u32| 1 <= k < inum ==> #[trigger] same_file(s, t, k)
        }),
{
    reveal(ImageState::belongs);
    reveal(ImageState::file_tidy);
    let (t, inum) = s.allocate_inode(typ)->Ok_0;
    let d = new_inode(typ);
    let t1 = s.write_inode(inum, d);
    lemma_write_inode(s, inum, d);
    assert(t.blocks == t1.blocks);
    assert forall|k: u32| k < NINODES implies #[trigger] t.inode(k) == t1.inode(k) by {}
    assert(t.inode(inum) == d);
    assert(block_count(0) == 0);
    assert(t.tidy(d, 0)) by {
        reveal(ImageState::tidy);
    }
    assert(t.file(inum) =~= Seq::<u8>::empty());
    assert(t.file_tidy(inum));
    assert forall|b: int| NMETA <= b < FSSIZE implies #[trigger] t.blocks[b] == s.blocks[b] by {
        assert(inode_block(inum) < NMETA);
    }
    assert forall|k: u32| 1 <= k < inum implies #[trigger] same_file(s, t, k) by {
        assert(t1.inode(k) == s.inode(k));
        assert(s.file_tidy(k));
        assert forall|b: u32| #[trigger] s.belongs(k, b) implies t.blocks[b as int]
            == s.blocks[b as int] by {
            lemma_belongs(s, k, b);
        }
        lemma_kept(s, t, k);
    }
    assert forall|b: u32| #[trigger] t.belongs(inum, b) implies b >= s.free_block by {}
    lemma_sound(s, t, inum);
}

/// A file that is added holds what was given, under its name in the root directory; the root
/// directory grows by that entry, all other files are as they were, and the image stays sound.
pub proof fn law_add_file(s: ImageState, name: Seq<u8>, data: Seq<u8>)
    requires
        s.sound(),
        s.free_inode > ROOTINO,
        s.add_file(name, data) is Ok,
    ensures
        ({
            let t = s.add_file(name, data)->Ok_0;
            let inum = s.free_inode;
            &&& t.sound()
            &&& t.free_inode == inum + 1
            &&& t.file(inum) == data
            &&& t.inode(inum).typ == InodeType::File
            &&& t.inode(inum).nlink == 1
            &&& t.file(ROOTINO) == s.file(ROOTINO) + (DirEntry {
                inum: inum as u16,
                name: padded(name),
            }).bytes()
            &&& forall|k: u32| ROOTINO < k < inum ==> #[trigger] same_file(s, t, k)
        }),
{
    let inum = s.free_inode;
    law_new_inode(s, InodeType::File);
    let (s1, _) = s.allocate_inode(InodeType::File)->Ok_0;
    let entry = (DirEntry { inum: inum as u16, name: padded(name) }).bytes();
    law_append(s1, ROOTINO, entry);
    let s2 = s1.append_inode(ROOTINO, entry)->Ok_0;
    law_append(s2, inum, data);
    let t = s.add_file(name, data)->Ok_0;
    reveal(same_file);
    assert(same_file(s, s1, ROOTINO));
    assert(same_file(s1, s2, inum));
    assert(same_file(s2, t, ROOTINO));
    assert(t.file(inum) =~= data);
    assert forall|k: u32| ROOTINO < k < inum implies #[trigger] same_file(s, t, k) by {
        assert(same_file(s, s1, k));
        assert(same_file(s1, s2, k));
        assert(same_file(s2, t, k));
    }
}

/// A block can be mapped as long as there are blocks left.
proof fn lemma_map_ok(s: ImageState, d: InodeData, n: int, bn: int)
    requires
        s.wf(),
        s.rest_blank(),
        s.tidy(d, n),
        0 <= bn <= n,
        bn < MAXFILE,
        bn == n ==> s.free_block + need(n + 1) - need(n) <= FSSIZE,
    ensures
        s.map(d, bn) is Ok,
        is_data((s.map(d, bn)->Ok_0).2),
{
    reveal(ImageState::tidy);
    if bn < n {
        assert(s.in_use(s.addr(d, bn)));
    } else if bn < NDIRECT {
        assert(s.addr(d, bn) == 0);
    } else {
        let nd = NDIRECT as int;
        let (s1, d1, ib) = s.slot(d, nd)->Ok_0;
        if n > nd {
            assert(s.addr(d, bn) == 0);
        } else {
            lemma_zero_entry(0);
        }
    }
}

/// Data can be appended to a file as long as the file is not too large and there are blocks left.
proof fn lemma_put_ok(s: ImageState, d: InodeData, offset: int, data: Seq<u8>)
    requires
        s.wf(),
        s.rest_blank(),
        s.tidy(d, block_count(offset)),
        0 <= offset,
        offset + data.len() <= MAXFILE * BSIZE,
        s.free_block + need(block_count(offset + data.len())) - need(block_count(offset)) <= FSSIZE,
    ensures
        s.put(d, offset, data) is Ok,
    decreases data.len(),
{
    if data.len() > 0 {
        let bn = offset / (BSIZE as int);
        let n = block_count(offset);
        let n2 = block_count(offset + data.len());
        assert(bn < MAXFILE && bn <= n);
        assert(bn == n ==> n + 1 <= n2);
        lemma_map_ok(s, d, n, bn);
        lemma_step(s, d, offset, data);
        let (t1, e1, m) = step(s, d, offset, data);
        assert(data.skip(m).len() == data.len() - m);
        lemma_put_ok(t1, e1, offset + m, data.skip(m));
    }
}

/// Data can be appended to a file as long as the file does not become too large and there
/// are blocks left.
pub proof fn law_append_succeeds(s: ImageState, inum: u32, data: Seq<u8>)
    requires
        s.sound(),
        1 <= inum < s.free_inode,
        s.inode(inum).size + data.len() <= MAXFILE * BSIZE,
        s.free_block + need(block_count(s.inode(inum).size + data.len())) - need(
            block_count(s.inode(inum).size as int),
        ) <= FSSIZE,
    ensures
        s.append_inode(inum, data) is Ok,
        (s.append_inode(inum, data)->Ok_0).free_block == s.free_block + need(
            block_count(s.inode(inum).size + data.len()),
        ) - need(block_count(s.inode(inum).size as int)),
{
    assert(s.file_tidy(inum));
    reveal(ImageState::file_tidy);
    let d = s.inode(inum);
    lemma_put_ok(s, d, d.size as int, data);
    lemma_put(s, d, d.size as int, data);
    reveal(appended);
}

/// An image without files can be made. It is sound, and its root directory holds `.` and `..`.
pub proof fn law_empty()
    ensures
        ImageState::empty() is Ok,
        ({
            let t = ImageState::empty()->Ok_0;
            &&& t.sound()
            &&& t.free_inode == ROOTINO + 1
            &&& t.free_block == NMETA + 1
            &&& t.inode(ROOTINO).typ == InodeType::Directory
            &&& t.file(ROOTINO) == (DirEntry { inum: 1, name: padded(seq![0x2e]) }).bytes() + (
            DirEntry { inum: 1, name: padded(seq![0x2e, 0x2e]) }).bytes()
        }),
{
    lemma_blank_sound();
    let s = ImageState::blank();
    law_new_inode(s, InodeType::Directory);
    let (s1, inum) = s.allocate_inode(InodeType::Directory)->Ok_0;
    let a = (DirEntry { inum: 1, name: padded(seq![0x2e]) }).bytes();
    let b = (DirEntry { inum: 1, name: padded(seq![0x2e, 0x2e]) }).bytes();
    lemma_two_entries(s1, a, b);
    assert(ImageState::empty() == (s1.append_inode(1, a)->Ok_0).append_inode(1, b));
}

proof fn lemma_blank_sound()
    ensures
        ImageState::blank().sound(),
        ImageState::blank().free_block == NMETA,
        ImageState::blank().free_inode == 1,
{
    assert(zeros().len() == BSIZE);
    lemma_blank_ok(ImageState::blank());
}

/// Two entries in an empty root directory.
proof fn lemma_two_entries(s: ImageState, a: Seq<u8>, b: Seq<u8>)
    requires
        s.sound(),
        s.free_inode == 2,
        s.free_block == NMETA,
        s.inode(1) == new_inode(InodeType::Directory),
        s.file(1) == Seq::<u8>::empty(),
        a.len() == 16,
        b.len() == 16,
    ensures
        s.append_inode(1, a) is Ok,
        (s.append_inode(1, a)->Ok_0).append_inode(1, b) is Ok,
        ({
            let t = (s.append_inode(1, a)->Ok_0).append_inode(1, b)->Ok_0;
            &&& t.sound()
            &&& t.free_inode == 2
            &&& t.free_block == NMETA + 1
            &&& t.inode(1).typ == InodeType::Directory
            &&& t.file(1) == a + b
        }),
{
    assert(block_count(0) == 0 && block_count(16) == 1 && block_count(32) == 1);
    law_append_succeeds(s, 1, a);
    law_append(s, 1, a);
    let s2 = s.append_inode(1, a)->Ok_0;
    assert(s2.file(1) =~= a);
    assert(s2.file(1).len() == s2.inode(1).size);
    law_append_succeeds(s2, 1, b);
    law_append(s2, 1, b);
}

/// A disk that holds a sound image is read by the kernel as it was made: the inode of each file is
/// found where the kernel looks for it, and reading the file gives what was put into it.
pub proof fn law_kernel_reads(s: StoreState, dev: u32, image: ImageState, inum: u32)
    requires
        image.sound(),
        1 <= inum < image.free_inode,
        s.sized(),
        quiet(s, dev, image.inode(inum)),
        forall|b: u32| b < FSSIZE ==> #[trigger] s.blocks[(dev, b)] == image.blocks[b as int],
    ensures
        dinode_at(s.blocks[(dev, layout().inode_block(inum))], inum) == image.inode(inum),
        s.read_inode(layout(), dev, image.inode(inum), 0, image.inode(inum).size) == Some(
            (s, image.inode(inum), Ok::<Seq<u8>, FsError>(image.file(inum))),
        ),
{
    let d = image.inode(inum);
    let n = block_count(d.size as int);
    assert(image.file_tidy(inum));
    assert(image.tidy(d, n) && d.size <= MAXFILE * BSIZE) by {
        reveal(ImageState::file_tidy);
    }
    assert(s.blocks[(dev, layout().inode_block(inum))] == image.blocks[inode_block(inum)]);
    assert(d.addrs.len() == NADDRS) by {
        reveal(ImageState::tidy);
    }
    assert forall|k: int| 0 <= k < n implies #[trigger] addr_of(s, dev, d, k) == image.addr(d, k)
        && image.in_use(image.addr(d, k)) by {
        reveal(ImageState::tidy);
        assert(image.in_use(image.addr(d, k)));
        if k >= NDIRECT {
            assert(image.in_use(d.addrs[NDIRECT as int]));
            assert(s.blocks[(dev, d.addrs[NDIRECT as int])]
                == image.blocks[d.addrs[NDIRECT as int] as int]);
        }
    }
    assert(mapped(s, dev, d, 0, n));
    law_read(s, layout(), dev, d, 0, d.size);
    assert(bytes_of(s, dev, d, 0, d.size as int) =~= image.file(inum)) by {
        assert forall|i: int| 0 <= i < d.size implies byte_of(s, dev, d, i) == image.file(inum)[i] by {
            let k = i / (BSIZE as int);
            assert(0 <= k < n);
            assert(addr_of(s, dev, d, k) == image.addr(d, k));
            assert(s.blocks[(dev, image.addr(d, k))] == image.blocks[image.addr(d, k) as int]);
        }
    }
}

} // verus!
