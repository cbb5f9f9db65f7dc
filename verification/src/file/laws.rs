//! What reading and writing open files means: the bytes that a process writes are the bytes of the
//! file, and the bytes of the file are what it reads.
use vstd::prelude::*;
use crate::abi::SysError;
use crate::file::write::MAXWRITE;
use crate::file::{FileInner, FilesState};
use crate::fs::inode::InodeData;
use crate::fs::laws::{
    addr_of,
    allotted,
    byte_of,
    bytes_of,
    distinct,
    lemma_still_quiet,
    lemma_wrote_both,
    mapped,
    owns,
    quiet,
    tidy,
    wrote,
};
use crate::fs::table::FsState;
use crate::fs::user_laws::{
    clear_of_log,
    file_ok,
    in_log,
    law_read_user,
    law_write_user,
    log_sound,
};
use crate::fs::{Inode, SuperBlock, MAXFILE, NDIRECT};
use crate::log::{apply, law_commit_keeps_blocks, StoreState};
use crate::param::NINODE;
use crate::pipe::Progress;
use crate::virtio_disk::{BlockId, BSIZE};
use crate::vm::UserMem;

verus! {

/// Blocks keep their size when blocks of that size are written.
proof fn lemma_apply_sized(s: Map<BlockId, Seq<u8>>, w: Seq<(BlockId, Seq<u8>)>)
    requires
        forall|id: BlockId| (#[trigger] s[id]).len() == BSIZE && s.contains_key(id),
        forall|i: int| 0 <= i < w.len() ==> (#[trigger] w[i]).1.len() == BSIZE,
    ensures
        forall|id: BlockId|
            (#[trigger] apply(s, w)[id]).len() == BSIZE && apply(s, w).contains_key(id),
    decreases w.len(),
{
    if w.len() > 0 {
        let v = w.drop_last();
        assert forall|i: int| 0 <= i < v.len() implies (#[trigger] v[i]).1.len() == BSIZE by {
            assert(v[i] == w[i]);
        }
        lemma_apply_sized(s, v);
        assert(w.last() == w[w.len() - 1]);
        assert forall|id: BlockId| (#[trigger] apply(s, w)[id]).len() == BSIZE && apply(
            s,
            w,
        ).contains_key(id) by {
            assert(apply(s, v)[id].len() == BSIZE);
        }
    }
}

/// A commit keeps the size of every block.
proof fn lemma_commit_sized(s: StoreState)
    requires
        s.sized(),
    ensures
        s.committed().sized(),
{
    let w = s.commit_writes();
    let n = s.logged.len() as int;
    assert forall|i: int| 0 <= i < w.len() implies (#[trigger] w[i]).1.len() == BSIZE by {
        assert(s.blocks[(s.dev, s.start)].len() == BSIZE);
        if i < n {
            assert(w[i] == s.log_writes()[i]);
            assert(s.blocks[(s.dev, s.logged[i])].len() == BSIZE);
        } else if i > n && i < 2 * n + 1 {
            assert(w[i] == s.home_writes()[i - n - 1]);
            assert(s.blocks[(s.dev, s.logged[i - n - 1])].len() == BSIZE);
        }
    }
    lemma_apply_sized(s.blocks, w);
    let t = s.committed();
    assert forall|id: BlockId| (#[trigger] t.blocks[id]).len() == BSIZE && t.blocks.contains_key(id) by {
        assert(apply(s.blocks, w)[id].len() == BSIZE);
    }
}

/// The file `d` is the same in `t`: the same blocks, with the same bytes.
pub open spec fn same_file(s: StoreState, t: StoreState, dev: u32, d: InodeData) -> bool {
    &&& forall|i: int|
        0 <= i < MAXFILE ==> #[trigger] addr_of(t, dev, d, i) == addr_of(s, dev, d, i)
    &&& forall|i: int|
        0 <= i < MAXFILE * BSIZE && addr_of(s, dev, d, i / (BSIZE as int)) != 0
            ==> #[trigger] byte_of(t, dev, d, i) == byte_of(s, dev, d, i)
}

/// A file is as it was where only the log area changed.
proof fn lemma_log_changed(
    s: StoreState,
    t: StoreState,
    sb: SuperBlock,
    dev: u32,
    d: InodeData,
    ibk: u32,
)
    requires
        file_ok(s, sb, dev, d, ibk),
        t.sized(),
        t.held == s.held,
        t.start == s.start,
        t.size == s.size,
        t.dev == s.dev,
        log_sound(t),
        forall|id: BlockId|
            id.0 != dev || !in_log(s, id.1) ==> #[trigger] t.blocks[id] == s.blocks[id],
    ensures
        file_ok(t, sb, dev, d, ibk),
        same_file(s, t, dev, d),
{
    reveal(file_ok);
    reveal(tidy);
    reveal(allotted);
    reveal(distinct);
    reveal(clear_of_log);
    let ib = d.addrs[NDIRECT as int];
    assert(ib != 0 ==> owns(s, dev, d, ib));
    assert forall|i: int| 0 <= i < MAXFILE implies #[trigger] addr_of(t, dev, d, i) == addr_of(
        s,
        dev,
        d,
        i,
    ) by {
        if ib != 0 {
            assert(!in_log(s, ib));
        }
    }
    assert forall|c: u32| #[trigger] t.is_bitmap(sb, c) == s.is_bitmap(sb, c) by {}
    assert forall|c: u32| c < sb.size implies #[trigger] t.used(sb, dev, c) == s.used(sb, dev, c) by {
        assert(s.is_bitmap(sb, sb.bitmap_block(c)));
        assert(!in_log(s, sb.bitmap_block(c)));
        assert(t.blocks[(dev, sb.bitmap_block(c))] == s.blocks[(dev, sb.bitmap_block(c))]);
    }
    assert forall|a: u32| #[trigger] owns(t, dev, d, a) == owns(s, dev, d, a) by {
        if owns(t, dev, d, a) && a != ib {
            let i = choose|i: int| 0 <= i < MAXFILE && #[trigger] addr_of(t, dev, d, i) == a;
            assert(addr_of(s, dev, d, i) == a);
        }
        if owns(s, dev, d, a) && a != ib {
            let i = choose|i: int| 0 <= i < MAXFILE && #[trigger] addr_of(s, dev, d, i) == a;
            assert(addr_of(t, dev, d, i) == a);
        }
    }
    assert forall|i: int|
        0 <= i < MAXFILE * BSIZE && addr_of(s, dev, d, i / (BSIZE as int)) != 0 implies #[trigger] byte_of(
        t,
        dev,
        d,
        i,
    ) == byte_of(s, dev, d, i) by {
        let a = addr_of(s, dev, d, i / (BSIZE as int));
        assert(owns(s, dev, d, a));
        assert(!in_log(s, a));
    }
    assert(t.reserved(sb, dev)) by {
        assert(t.used(sb, dev, 0) == s.used(sb, dev, 0));
        assert forall|b: u32| #[trigger] t.is_bitmap(sb, b) implies b < sb.size && t.used(
            sb,
            dev,
            b,
        ) by {
            assert(s.is_bitmap(sb, b));
        }
    }
    assert(allotted(t, sb, dev, d)) by {
        assert forall|a: u32| #[trigger] owns(t, dev, d, a) implies a < sb.size && t.used(
            sb,
            dev,
            a,
        ) && !t.is_bitmap(sb, a) by {
            assert(owns(s, dev, d, a));
        }
    }
    assert(distinct(t, dev, d)) by {
        assert forall|i: int, j: int|
            #![trigger addr_of(t, dev, d, i), addr_of(t, dev, d, j)]
            0 <= i < j < MAXFILE && addr_of(t, dev, d, i) != 0 implies addr_of(t, dev, d, i) != addr_of(
            t,
            dev,
            d,
            j,
        ) by {
            assert(addr_of(s, dev, d, i) != addr_of(s, dev, d, j));
        }
    }
    assert(t.used(sb, dev, ibk) == s.used(sb, dev, ibk));
    assert(owns(t, dev, d, ibk) == owns(s, dev, d, ibk));
    assert(tidy(t, sb, dev, d, ibk));
    lemma_still_quiet(s, d, t, d, dev);
    assert(clear_of_log(t, sb, dev, d, ibk)) by {
        assert forall|b: u32| #[trigger] in_log(t, b) implies b < sb.size && t.used(sb, dev, b)
            && !t.is_bitmap(sb, b) && !owns(t, dev, d, b) by {
            assert(in_log(s, b));
            assert(owns(t, dev, d, b) == owns(s, dev, d, b));
        }
    }
}

/// Beginning and ending an operation leave a file as it is, whether there is a commit or not.
proof fn lemma_op(s: FsState, t: FsState, dev: u32, d: InodeData, ibk: u32)
    requires
        file_ok(s.store, s.sb, dev, d, ibk),
        s.begin() == Some(t) || s.end() == Some(t),
    ensures
        file_ok(t.store, t.sb, dev, d, ibk),
        same_file(s.store, t.store, dev, d),
        t.store.held == s.store.held,
        t == (FsState { store: t.store, ..s }),
{
    let a = s.store;
    let b = t.store;
    assert(a.sized() && log_sound(a) && a.dev == dev) by {
        reveal(file_ok);
        reveal(tidy);
        reveal(allotted);
    }
    if s.begin() == Some(t) {
        assert(b.sized()) by {
            assert forall|id: BlockId| (#[trigger] b.blocks[id]).len() == BSIZE
                && b.blocks.contains_key(id) by {
                assert(a.blocks[id].len() == BSIZE);
            }
        }
        lemma_log_changed(a, b, s.sb, dev, d, ibk);
    } else {
        let c = StoreState { outstanding: (a.outstanding - 1) as u32, ..a };
        assert(c.sized()) by {
            assert forall|id: BlockId| (#[trigger] c.blocks[id]).len() == BSIZE
                && c.blocks.contains_key(id) by {
                assert(a.blocks[id].len() == BSIZE);
            }
        }
        if c.outstanding == 0 {
            lemma_commit_sized(c);
            assert forall|id: BlockId| id.0 != dev || !in_log(a, id.1) implies #[trigger] b.blocks[id]
                == a.blocks[id] by {
                law_commit_keeps_blocks(c, id);
            }
            assert(log_sound(b));
        }
        lemma_log_changed(a, b, s.sb, dev, d, ibk);
    }
}

/// The inode stands for the file `d`, which can be locked, and is in order.
pub open spec fn is_file(s: FsState, inode: Inode, d: InodeData) -> bool {
    &&& s.inner.len() == NINODE
    &&& s.locked.len() == NINODE
    &&& d.valid
    &&& s.lock(inode) matches Some((_, x)) && x == d
    &&& file_ok(s.store, s.sb, inode.dev, d, s.sb.inode_block(inode.inum))
}

/// The bytes `bytes` were written to the file at `offset`: it was `d` and is `e` now, reaches as far
/// as it did or to the end of what was written, and has all its other bytes.
pub open spec fn written(
    s: FsState,
    d: InodeData,
    t: FsState,
    e: InodeData,
    dev: u32,
    offset: int,
    bytes: Seq<u8>,
) -> bool {
    &&& wrote(s.store, InodeData { size: e.size, ..d }, t.store, e, dev, offset, bytes)
    &&& e.size == (if offset + bytes.len() > d.size {
        offset + bytes.len()
    } else {
        d.size as int
    })
}

/// Where the file is the same before and after, the same was written.
proof fn lemma_written_between(
    s0: FsState,
    s: FsState,
    t: FsState,
    t1: FsState,
    d: InodeData,
    e: InodeData,
    dev: u32,
    offset: int,
    bytes: Seq<u8>,
)
    requires
        written(s, d, t, e, dev, offset, bytes),
        same_file(s0.store, s.store, dev, d),
        same_file(t.store, t1.store, dev, e),
        0 <= offset,
        offset + bytes.len() <= MAXFILE * BSIZE,
    ensures
        written(s0, d, t1, e, dev, offset, bytes),
{
    reveal(wrote);
    let d2 = InodeData { size: e.size, ..d };
    assert forall|i: int| 0 <= i < MAXFILE implies #[trigger] addr_of(s0.store, dev, d2, i) == addr_of(
        s.store,
        dev,
        d2,
        i,
    ) by {
        assert(addr_of(s.store, dev, d, i) == addr_of(s0.store, dev, d, i));
    }
    assert forall|i: int| offset <= i < offset + bytes.len() implies #[trigger] byte_of(
        t1.store,
        dev,
        e,
        i,
    ) == bytes[i - offset] && addr_of(t1.store, dev, e, i / (BSIZE as int)) != 0 by {
        assert(byte_of(t.store, dev, e, i) == bytes[i - offset]);
        assert(addr_of(t1.store, dev, e, i / (BSIZE as int)) == addr_of(
            t.store,
            dev,
            e,
            i / (BSIZE as int),
        ));
    }
    assert forall|i: int|
        0 <= i < MAXFILE * BSIZE && !(offset <= i < offset + bytes.len()) && addr_of(
            s0.store,
            dev,
            d2,
            i / (BSIZE as int),
        ) != 0 implies #[trigger] byte_of(t1.store, dev, e, i) == byte_of(s0.store, dev, d2, i) by {
        let j = i / (BSIZE as int);
        assert(addr_of(s0.store, dev, d2, j) == addr_of(s.store, dev, d2, j));
        assert(byte_of(t.store, dev, e, i) == byte_of(s.store, dev, d2, i));
        assert(addr_of(t.store, dev, e, j) == addr_of(s.store, dev, d2, j));
        assert(byte_of(s.store, dev, d, i) == byte_of(s0.store, dev, d, i));
        assert(byte_of(s.store, dev, d2, i) == byte_of(s.store, dev, d, i));
        assert(byte_of(s0.store, dev, d2, i) == byte_of(s0.store, dev, d, i));
    }
    assert forall|k: int|
        0 <= k < MAXFILE && addr_of(s0.store, dev, d2, k) != 0 implies #[trigger] addr_of(
        t1.store,
        dev,
        e,
        k,
    ) == addr_of(s0.store, dev, d2, k) by {
        assert(addr_of(t.store, dev, e, k) == addr_of(s.store, dev, d2, k));
    }
}

/// One operation of a write.
proof fn lemma_write_op(
    s: FsState,
    m: UserMem,
    size: int,
    inode: Inode,
    d: InodeData,
    offset: u32,
    addr: int,
    n: u32,
)
    requires
        is_file(s, inode, d),
        m.whole(),
        0 <= addr,
        s.write_op(m, size, inode, offset, addr, n) is Some,
    ensures
        ({
            let (t, m1, r) = s.write_op(m, size, inode, offset, addr, n)->0;
            let e = t.inner[inode.id as int];
            &&& is_file(t, inode, e)
            &&& m.same_bytes(m1)
            &&& m1.whole()
            &&& match r {
                Some(w) => {
                    let bytes = m1.bytes_at(addr, w as int);
                    &&& w <= n
                    &&& offset + n <= MAXFILE * BSIZE
                    &&& m1.shows(addr, bytes)
                    &&& written(s, d, t, e, inode.dev, offset as int, bytes)
                },
                None => {
                    &&& e == d
                    &&& same_file(s.store, t.store, inode.dev, d)
                    &&& offset > d.size || offset + n > MAXFILE * BSIZE
                },
            }
        }),
{
    reveal(FsState::lock);
    let dev = inode.dev;
    let ibk = s.sb.inode_block(inode.inum);
    let s1 = s.begin()->0;
    lemma_op(s, s1, dev, d, ibk);
    let (s2, x) = s1.lock(inode)->0;
    assert(s2.store == s1.store);
    assert(x == d) by {
        reveal(file_ok);
        reveal(tidy);
        reveal(clear_of_log);
    }
    law_write_user(s2.store, s2.sb, dev, inode.inum, d, offset, n, m, size, addr);
    let (st, e, m1, r) = s2.store.write_user(
        s2.sb,
        dev,
        inode.inum,
        d,
        offset,
        n,
        m,
        size,
        addr,
    )->0;
    let s3 = FsState { store: st, ..s2 }.unlock(inode, e);
    let t = s3.end()->0;
    lemma_op(s3, t, dev, e, ibk);
    assert(t.inner[inode.id as int] == e);
    assert(t.lock(inode) matches Some((_, y)) && y == e);
    if let Ok(w) = r {
        let bytes = m1.bytes_at(addr, w as int);
        assert(written(s1, d, s3, e, dev, offset as int, bytes));
        lemma_written_between(s, s1, s3, t, d, e, dev, offset as int, bytes);
    } else {
        assert forall|i: int|
            0 <= i < MAXFILE * BSIZE && addr_of(s.store, dev, d, i / (BSIZE as int)) != 0 implies #[trigger] byte_of(
            t.store,
            dev,
            d,
            i,
        ) == byte_of(s.store, dev, d, i) by {
            let j = i / (BSIZE as int);
            assert(addr_of(s1.store, dev, d, j) == addr_of(s.store, dev, d, j));
            assert(byte_of(s1.store, dev, d, i) == byte_of(s.store, dev, d, i));
            assert(byte_of(t.store, dev, d, i) == byte_of(s3.store, dev, d, i));
        }
        assert forall|i: int| 0 <= i < MAXFILE implies #[trigger] addr_of(t.store, dev, d, i)
            == addr_of(s.store, dev, d, i) by {
            assert(addr_of(s1.store, dev, d, i) == addr_of(s.store, dev, d, i));
            assert(addr_of(t.store, dev, d, i) == addr_of(s3.store, dev, d, i));
        }
    }
}

/// Nothing was written where the file is the same.
proof fn lemma_written_nothing(s: FsState, t: FsState, d: InodeData, dev: u32, offset: int, m: UserMem, a: int)
    requires
        same_file(s.store, t.store, dev, d),
    ensures
        offset <= d.size ==> written(s, d, t, d, dev, offset, m.bytes_at(a, 0)),
        wrote(s.store, d, t.store, d, dev, offset, m.bytes_at(a, 0)),
        m.shows(a, m.bytes_at(a, 0)),
{
    reveal(wrote);
    assert(InodeData { size: d.size, ..d } == d);
}

/// Two pieces, one behind the other, are one.
proof fn lemma_written_both(
    s: FsState,
    d: InodeData,
    t: FsState,
    e: InodeData,
    u: FsState,
    f: InodeData,
    dev: u32,
    offset: int,
    one: Seq<u8>,
    two: Seq<u8>,
)
    requires
        written(s, d, t, e, dev, offset, one),
        written(t, e, u, f, dev, offset + one.len(), two),
        0 <= offset <= d.size,
        offset + one.len() + two.len() <= MAXFILE * BSIZE,
    ensures
        written(s, d, u, f, dev, offset, one + two),
{
    let d1 = InodeData { size: f.size, ..d };
    let e1 = InodeData { size: f.size, ..e };
    assert(wrote(s.store, d1, t.store, e1, dev, offset, one)) by {
        reveal(wrote);
        let d0 = InodeData { size: e.size, ..d };
        assert forall|i: int| 0 <= i < MAXFILE implies #[trigger] addr_of(s.store, dev, d1, i)
            == addr_of(s.store, dev, d0, i) by {}
        assert forall|i: int| 0 <= i < MAXFILE implies #[trigger] addr_of(t.store, dev, e1, i)
            == addr_of(t.store, dev, e, i) by {}
        assert forall|i: int| offset <= i < offset + one.len() implies #[trigger] byte_of(
            t.store,
            dev,
            e1,
            i,
        ) == one[i - offset] && addr_of(t.store, dev, e1, i / (BSIZE as int)) != 0 by {
            assert(byte_of(t.store, dev, e, i) == one[i - offset]);
        }
        assert forall|i: int|
            0 <= i < MAXFILE * BSIZE && !(offset <= i < offset + one.len()) && addr_of(
                s.store,
                dev,
                d1,
                i / (BSIZE as int),
            ) != 0 implies #[trigger] byte_of(t.store, dev, e1, i) == byte_of(s.store, dev, d1, i) by {
            assert(byte_of(t.store, dev, e, i) == byte_of(s.store, dev, d0, i));
        }
        assert forall|k: int|
            0 <= k < MAXFILE && addr_of(s.store, dev, d1, k) != 0 implies #[trigger] addr_of(
            t.store,
            dev,
            e1,
            k,
        ) == addr_of(s.store, dev, d1, k) by {
            assert(addr_of(t.store, dev, e, k) == addr_of(s.store, dev, d0, k));
        }
    }
    lemma_wrote_both(s.store, d1, t.store, e1, u.store, f, dev, offset, one, two);
}

/// What is written is what the file holds: when `k - i` bytes were written at `offset` of a file, in
/// however many operations on the log, each of them is the byte of the process that stands there, all
/// other bytes of the file are as they were, and so is the memory of the process. All that was asked
/// for is written, unless the file would get too large.
pub proof fn law_write_ops(
    s: FsState,
    m: UserMem,
    size: int,
    inode: Inode,
    d: InodeData,
    offset: u32,
    addr: int,
    n: int,
    i: int,
)
    requires
        is_file(s, inode, d),
        m.whole(),
        0 <= addr,
        0 <= i <= n,
        offset <= d.size,
        s.write_ops(m, size, inode, offset, addr, n, i) is Some,
    ensures
        ({
            let (t, m1, end, k) = s.write_ops(m, size, inode, offset, addr, n, i)->0;
            let e = (t.lock(inode)->0).1;
            let bytes = m1.bytes_at(addr + i, k - i);
            &&& i <= k <= n
            &&& end == offset + (k - i)
            &&& is_file(t, inode, e)
            &&& m.same_bytes(m1)
            &&& m1.whole()
            &&& m1.shows(addr + i, bytes)
            &&& written(s, d, t, e, inode.dev, offset as int, bytes)
            &&& k < n ==> end + (n - k) > MAXFILE * BSIZE
            &&& k > i ==> end <= MAXFILE * BSIZE
        }),
    decreases n - i,
{
    let dev = inode.dev;
    let (t, m1, end, k) = s.write_ops(m, size, inode, offset, addr, n, i)->0;
    assert(m.same_bytes(m));
    if i >= n {
        assert(same_file(s.store, s.store, dev, d));
        lemma_written_nothing(s, s, d, dev, offset as int, m, addr + i);
    } else {
        let n1 = if n - i < MAXWRITE {
            n - i
        } else {
            MAXWRITE as int
        };
        lemma_write_op(s, m, size, inode, d, offset, addr + i, n1 as u32);
        let (s2, m2, r) = s.write_op(m, size, inode, offset, addr + i, n1 as u32)->0;
        let e = s2.inner[inode.id as int];
        if let Some(w) = r {
            let one = m2.bytes_at(addr + i, w as int);
            law_write_ops(s2, m2, size, inode, e, (offset + w) as u32, addr, n, i + w);
            assert((t, m1, end, k) == s2.write_ops(
                m2,
                size,
                inode,
                (offset + w) as u32,
                addr,
                n,
                i + w,
            )->0);
            let f = (t.lock(inode)->0).1;
            let two = m1.bytes_at(addr + (i + w), k - (i + w));
            m.lemma_same_trans(m2, m1);
            m2.lemma_same_shows(m1, addr + i, one);
            assert(addr + i + one.len() == addr + (i + w));
            m1.lemma_shows_both(addr + i, one, two);
            m1.lemma_bytes_at(addr + i, one + two);
            lemma_written_both(s, d, s2, e, t, f, dev, offset as int, one, two);
        } else {
            lemma_written_nothing(s, t, d, dev, offset as int, m1, addr + i);
        }
    }
}

/// Writing to a file that is open: the call returns how many bytes were asked for if and only if all
/// of them were written, and then the file holds the bytes of the process from its offset on, which
/// has moved to behind them. Otherwise it is an error, and the file holds the bytes before.
pub proof fn law_write_file(
    s: FilesState,
    m: UserMem,
    size: int,
    pid: u64,
    id: int,
    inode: Inode,
    d: InodeData,
    addr: int,
    n: u64,
)
    requires
        is_file(s.fs, inode, d),
        m.whole(),
        0 <= addr,
        0 <= id < s.table.inner.len(),
        s.table.inner[id].offset <= d.size,
        s.write_file(m, size, pid, id, inode, addr, n) is Some,
    ensures
        ({
            let (t, m1, p, wake) = s.write_file(m, size, pid, id, inode, addr, n)->0;
            let f = s.table.inner[id];
            let g = t.table.inner[id];
            let k = g.offset - f.offset;
            let e = (t.fs.lock(inode)->0).1;
            &&& m.same_bytes(m1)
            &&& wake is None
            &&& is_file(t.fs, inode, e)
            &&& g == (FileInner { offset: g.offset, ..f })
            &&& 0 <= k <= n
            &&& m1.shows(addr, m1.bytes_at(addr, k))
            &&& written(
                s.fs,
                d,
                t.fs,
                e,
                inode.dev,
                f.offset as int,
                m1.bytes_at(addr, k),
            )
            &&& t.pipes == s.pipes && t.console == s.console
            &&& p == (if k == n {
                Progress::Done(Ok(n))
            } else {
                Progress::Done(Err(SysError::IoError))
            })
            &&& k < n ==> f.offset + n > MAXFILE * BSIZE
        }),
{
    let f = s.table.inner[id];
    law_write_ops(s.fs, m, size, inode, d, f.offset, addr, n as int, 0);
}

/// Reading from a file that is open: the process gets the bytes of the file from its offset on, as
/// many as it asked for and there are, the offset moves to behind them, and nothing else changes.
pub proof fn law_read_file(
    s: FilesState,
    m: UserMem,
    size: int,
    pid: u64,
    id: int,
    inode: Inode,
    d: InodeData,
    addr: int,
    n: u64,
)
    requires
        is_file(s.fs, inode, d),
        d.size <= MAXFILE * BSIZE,
        mapped(s.fs.store, inode.dev, d, 0, (d.size + BSIZE - 1) / (BSIZE as int)),
        m.whole(),
        0 <= addr,
        n <= u32::MAX,
        0 <= id < s.table.inner.len(),
        s.table.inner[id].offset <= d.size,
        s.table.inner[id].offset + n <= u32::MAX,
        s.read_file(m, size, pid, id, inode, addr, n) is Some,
    ensures
        ({
            let (t, m1, p, wake) = s.read_file(m, size, pid, id, inode, addr, n)->0;
            let f = s.table.inner[id];
            let g = t.table.inner[id];
            let end = if f.offset + n > d.size {
                d.size as int
            } else {
                f.offset + n
            };
            let bytes = bytes_of(s.fs.store, inode.dev, d, f.offset as int, end);
            &&& wake is None
            &&& t.fs.store == s.fs.store
            &&& (t.fs.lock(inode) matches Some((_, e)) && e == d)
            &&& t.pipes == s.pipes && t.console == s.console
            &&& m.only_within(m1, addr, addr + bytes.len())
            &&& match p {
                Progress::Done(Ok(k)) => {
                    &&& k == end - f.offset
                    &&& g == (FileInner { offset: end as u32, ..f })
                    &&& m1.shows(addr, bytes)
                },
                Progress::Done(Err(x)) => {
                    &&& x == SysError::IoError
                    &&& g == f
                    &&& exists|a: int| addr <= a < addr + bytes.len() && !#[trigger] m1.can_write(a)
                },
                Progress::Sleep(_, _) => false,
            }
        }),
{
    reveal(FsState::lock);
    let f = s.table.inner[id];
    let (s1, x) = s.fs.lock(inode)->0;
    assert(s1.store == s.fs.store && x == d);
    assert(s1.store.sized() && quiet(s1.store, inode.dev, d) && d.addrs.len() == crate::fs::NADDRS)
        by {
        reveal(file_ok);
        reveal(tidy);
        reveal(allotted);
    }
    law_read_user(s1.store, s1.sb, inode.dev, d, f.offset, n as u32, m, size, addr);
    let (t, m1, p, wake) = s.read_file(m, size, pid, id, inode, addr, n)->0;
    assert(t.fs.store == s.fs.store);
}

/// What a process writes to a file another reads there: after a write that returned `n`, a read of `n`
/// bytes at the same offset, through any descriptor for the file, gives the reader the bytes that the
/// writer had, in the same order.
pub proof fn law_write_then_read(
    s: FilesState,
    m: UserMem,
    size: int,
    pid: u64,
    id: int,
    inode: Inode,
    d: InodeData,
    addr: int,
    n: u64,
    reader: UserMem,
    rsize: int,
    rpid: u64,
    rid: int,
    raddr: int,
)
    requires
        is_file(s.fs, inode, d),
        d.size <= MAXFILE * BSIZE,
        mapped(s.fs.store, inode.dev, d, 0, (d.size + BSIZE - 1) / (BSIZE as int)),
        m.whole(),
        reader.whole(),
        0 <= addr,
        0 <= raddr,
        0 <= id < s.table.inner.len(),
        0 <= rid < s.table.inner.len(),
        s.table.inner[id].offset <= d.size,
        s.write_file(m, size, pid, id, inode, addr, n) matches Some((_, _, Progress::Done(Ok(_)), _)),
        ({
            let (t, m1, p, wake) = s.write_file(m, size, pid, id, inode, addr, n)->0;
            &&& t.table.inner[rid].offset == s.table.inner[id].offset
            &&& t.read_file(reader, rsize, rpid, rid, inode, raddr, n) matches Some(
                (_, _, Progress::Done(Ok(_)), _),
            )
        }),
    ensures
        ({
            let (t, m1, p, wake) = s.write_file(m, size, pid, id, inode, addr, n)->0;
            let (u, m2, q, _) = t.read_file(reader, rsize, rpid, rid, inode, raddr, n)->0;
            &&& q == Progress::Done(Ok(n))
            &&& m2.shows(raddr, m1.bytes_at(addr, n as int))
            &&& m1.shows(addr, m1.bytes_at(addr, n as int))
            &&& m.same_bytes(m1)
        }),
{
    law_write_file(s, m, size, pid, id, inode, d, addr, n);
    let (t, m1, p, wake) = s.write_file(m, size, pid, id, inode, addr, n)->0;
    let e = (t.fs.lock(inode)->0).1;
    let o = s.table.inner[id].offset as int;
    let dev = inode.dev;
    let bytes = m1.bytes_at(addr, n as int);
    lemma_ops_end(s, m, size, pid, id, inode, d, addr, n);
    assert(o + n <= MAXFILE * BSIZE);
    lemma_still_mapped(s.fs, d, t.fs, e, dev, o, bytes);
    law_read_file(t, reader, rsize, rpid, rid, inode, e, raddr, n);
    assert(bytes_of(t.fs.store, dev, e, o, o + n) =~= bytes) by {
        reveal(wrote);
        assert forall|j: int| 0 <= j < n implies byte_of(t.fs.store, dev, e, o + j) == bytes[j] by {
            assert(byte_of(t.fs.store, dev, e, o + j) == bytes[o + j - o]);
        }
    }
}

proof fn lemma_ops_end(
    s: FilesState,
    m: UserMem,
    size: int,
    pid: u64,
    id: int,
    inode: Inode,
    d: InodeData,
    addr: int,
    n: u64,
)
    requires
        is_file(s.fs, inode, d),
        d.size <= MAXFILE * BSIZE,
        m.whole(),
        0 <= addr,
        0 <= id < s.table.inner.len(),
        s.table.inner[id].offset <= d.size,
        s.write_file(m, size, pid, id, inode, addr, n) matches Some((_, _, Progress::Done(Ok(_)), _)),
    ensures
        s.table.inner[id].offset + n <= MAXFILE * BSIZE,
{
    let f = s.table.inner[id];
    law_write_ops(s.fs, m, size, inode, d, f.offset, addr, n as int, 0);
}

/// A file without holes has none after a write.
proof fn lemma_still_mapped(
    s: FsState,
    d: InodeData,
    t: FsState,
    e: InodeData,
    dev: u32,
    offset: int,
    bytes: Seq<u8>,
)
    requires
        written(s, d, t, e, dev, offset, bytes),
        mapped(s.store, dev, d, 0, (d.size + BSIZE - 1) / (BSIZE as int)),
        d.size <= MAXFILE * BSIZE,
        0 <= offset <= d.size,
        offset + bytes.len() <= MAXFILE * BSIZE,
    ensures
        mapped(t.store, dev, e, 0, (e.size + BSIZE - 1) / (BSIZE as int)),
{
    reveal(wrote);
    let d2 = InodeData { size: e.size, ..d };
    assert forall|bn: int| 0 <= bn < (e.size + BSIZE - 1) / (BSIZE as int) implies #[trigger] addr_of(
        t.store,
        dev,
        e,
        bn,
    ) != 0 by {
        if bn < (d.size + BSIZE - 1) / (BSIZE as int) {
            assert(addr_of(s.store, dev, d, bn) != 0);
            assert(addr_of(s.store, dev, d2, bn) == addr_of(s.store, dev, d, bn));
        } else {
            let i = if offset / (BSIZE as int) == bn {
                offset
            } else {
                bn * BSIZE
            };
            assert(i / (BSIZE as int) == bn);
            assert(offset <= i < offset + bytes.len());
            assert(byte_of(t.store, dev, e, i) == bytes[i - offset]);
        }
    }
}

/// When the last operation on the log ends, all that was written is on the disk and the log is empty;
/// while there are others nothing is written yet. No block but those of the log changes.
pub proof fn law_end_commits(s: FsState, id: BlockId)
    requires
        log_sound(s.store),
        id.0 != s.store.dev || !in_log(s.store, id.1),
        s.end() is Some,
    ensures
        ({
            let t = s.end()->0;
            &&& t == (FsState { store: t.store, ..s })
            &&& t.store.outstanding == s.store.outstanding - 1
            &&& t.store.blocks[id] == s.store.blocks[id]
            &&& s.store.outstanding == 1 ==> t.store.logged.len() == 0
            &&& s.store.outstanding > 1 ==> t.store.logged == s.store.logged && t.store.blocks
                == s.store.blocks
        }),
{
    let c = StoreState { outstanding: (s.store.outstanding - 1) as u32, ..s.store };
    if c.outstanding == 0 {
        law_commit_keeps_blocks(c, id);
    }
}

/// The same byte by byte: after a write of `n` bytes that succeeded, each byte of the file from its old
/// offset on is the byte that the process has there, and every other byte is as it was.
pub proof fn law_written_bytes(
    s: FilesState,
    m: UserMem,
    size: int,
    pid: u64,
    id: int,
    inode: Inode,
    d: InodeData,
    addr: int,
    n: u64,
)
    requires
        is_file(s.fs, inode, d),
        d.size <= MAXFILE * BSIZE,
        mapped(s.fs.store, inode.dev, d, 0, (d.size + BSIZE - 1) / (BSIZE as int)),
        m.whole(),
        0 <= addr,
        0 <= id < s.table.inner.len(),
        s.table.inner[id].offset <= d.size,
        s.write_file(m, size, pid, id, inode, addr, n) matches Some((_, _, Progress::Done(Ok(_)), _)),
    ensures
        ({
            let (t, m1, p, wake) = s.write_file(m, size, pid, id, inode, addr, n)->0;
            let e = (t.fs.lock(inode)->0).1;
            let o = s.table.inner[id].offset as int;
            &&& p == Progress::Done(Ok::<u64, SysError>(n))
            &&& t.table.inner[id].offset == o + n
            &&& e.size == (if o + n > d.size {
                o + n
            } else {
                d.size as int
            })
            &&& forall|j: int|
                0 <= j < n ==> #[trigger] byte_of(t.fs.store, inode.dev, e, o + j) == m1.byte(
                    addr + j,
                ) && m1.at(addr + j)
            &&& forall|i: int|
                0 <= i < d.size && !(o <= i < o + n) ==> #[trigger] byte_of(
                    t.fs.store,
                    inode.dev,
                    e,
                    i,
                ) == byte_of(s.fs.store, inode.dev, d, i)
            &&& m.same_bytes(m1)
        }),
{
    law_write_file(s, m, size, pid, id, inode, d, addr, n);
    let (t, m1, p, wake) = s.write_file(m, size, pid, id, inode, addr, n)->0;
    let e = (t.fs.lock(inode)->0).1;
    let o = s.table.inner[id].offset as int;
    let dev = inode.dev;
    let bytes = m1.bytes_at(addr, n as int);
    reveal(wrote);
    assert forall|j: int| 0 <= j < n implies #[trigger] byte_of(t.fs.store, dev, e, o + j)
        == m1.byte(addr + j) && m1.at(addr + j) by {
        assert(byte_of(t.fs.store, dev, e, o + j) == bytes[o + j - o]);
        assert(m1.shows_one(addr, bytes, j));
    }
    let d2 = InodeData { size: e.size, ..d };
    assert forall|i: int| 0 <= i < d.size && !(o <= i < o + n) implies #[trigger] byte_of(
        t.fs.store,
        dev,
        e,
        i,
    ) == byte_of(s.fs.store, dev, d, i) by {
        let b = i / (BSIZE as int);
        assert(0 <= b < (d.size + BSIZE - 1) / (BSIZE as int));
        assert(addr_of(s.fs.store, dev, d, b) != 0);
        assert(addr_of(s.fs.store, dev, d2, b) == addr_of(s.fs.store, dev, d, b));
        assert(byte_of(s.fs.store, dev, d2, i) == byte_of(s.fs.store, dev, d, i));
    }
}

} // verus!
