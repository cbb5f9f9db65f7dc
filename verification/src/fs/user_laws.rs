//! What reading and writing a file means for the memory of the process that does it.
use vstd::prelude::*;
use crate::fs::inode::{chunk, InodeData};
use crate::fs::laws::{
    addr_of,
    allotted,
    byte_of,
    bytes_of,
    fresh_only,
    lemma_inode_written,
    lemma_map,
    lemma_map_allotted,
    lemma_map_failed,
    lemma_map_failed_allotted,
    lemma_map_mapped,
    lemma_quiet,
    lemma_tidy_write,
    lemma_write_step,
    lemma_wrote_both,
    lemma_wrote_nothing,
    mapped,
    maps_only,
    owns,
    quiet,
    tidy,
    wrote,
};
use crate::fs::{FsError, SuperBlock, MAXFILE, NDIRECT};
use crate::le::splice;
use crate::log::StoreState;
use crate::virtio_disk::{BlockId, BSIZE};
use crate::vm::bytes::{law_copy_from_bytes, law_copy_to_bytes};
use crate::vm::UserMem;

verus! {

/// Block `b` is in the log area.
pub open spec fn in_log(s: StoreState, b: u32) -> bool {
    s.start <= b < s.start + s.size
}

/// The log is sound: no block is in the transaction twice, and the transaction fits into the log area.
pub open spec fn log_sound(s: StoreState) -> bool {
    &&& s.logged.no_duplicates()
    &&& s.logged.len() < s.size
    &&& s.start + s.size <= u32::MAX
}

/// The log area is marked in use, and neither the bitmap, the file `d` nor the block `ibk` is in it.
#[verifier::opaque]
pub open spec fn clear_of_log(s: StoreState, sb: SuperBlock, dev: u32, d: InodeData, ibk: u32) -> bool {
    &&& !in_log(s, ibk)
    &&& forall|b: u32| #[trigger]
        in_log(s, b) ==> b < sb.size && s.used(sb, dev, b) && !s.is_bitmap(sb, b) && !owns(
            s,
            dev,
            d,
            b,
        )
}

/// The file `d` is tidy, nobody else uses it, and the log is sound and apart from it.
#[verifier::opaque]
pub open spec fn file_ok(s: StoreState, sb: SuperBlock, dev: u32, d: InodeData, ibk: u32) -> bool {
    &&& tidy(s, sb, dev, d, ibk)
    &&& quiet(s, dev, d)
    &&& clear_of_log(s, sb, dev, d, ibk)
    &&& log_sound(s)
    &&& s.dev == dev
}

/// From `s` to `t` the log area is the same, and the log stays sound.
pub open spec fn log_kept(s: StoreState, t: StoreState) -> bool {
    &&& t.start == s.start
    &&& t.size == s.size
    &&& t.dev == s.dev
    &&& t.outstanding == s.outstanding
    &&& t.committing == s.committing
    &&& log_sound(s) ==> log_sound(t)
}

proof fn lemma_write_log(s: StoreState, id: BlockId, data: Seq<u8>)
    requires
        s.writable(id),
    ensures
        log_kept(s, s.write(id, data)),
{
    let t = s.write(id, data);
    if log_sound(s) && !s.logged.contains(id.1) {
        assert(t.logged.no_duplicates()) by {
            assert forall|i: int, j: int|
                0 <= i < t.logged.len() && 0 <= j < t.logged.len() && i != j implies t.logged[i]
                != t.logged[j] by {
                if i == s.logged.len() {
                    assert(s.logged.contains(s.logged[j]));
                }
                if j == s.logged.len() {
                    assert(s.logged.contains(s.logged[i]));
                }
            }
        }
    }
}

proof fn lemma_alloc_log(s: StoreState, sb: SuperBlock, dev: u32)
    requires
        s.alloc_block(sb, dev) is Some,
    ensures
        log_kept(s, (s.alloc_block(sb, dev)->0).0),
{
    if exists|b: u32| s.first_free(sb, dev, b) {
        let b = choose|b: u32| s.first_free(sb, dev, b);
        let id = (dev, sb.bitmap_block(b));
        let map = s.bitmap(sb, dev, b);
        let i = crate::fs::block::byte_index(b);
        lemma_write_log(s, id, map.update(i, map[i] | crate::fs::block::mask(b)));
        let t = s.mark(sb, dev, b);
        lemma_write_log(t, (dev, b), crate::virtio_disk::zeros());
    }
}

/// Mapping a block keeps the log.
proof fn lemma_map_log(s: StoreState, sb: SuperBlock, dev: u32, d: InodeData, bn: u32)
    requires
        s.map_block(sb, dev, d, bn) is Some,
    ensures
        log_kept(s, (s.map_block(sb, dev, d, bn)->0).0),
{
    if bn < NDIRECT {
        if d.addrs[bn as int] == 0 {
            lemma_alloc_log(s, sb, dev);
        }
    } else if bn < MAXFILE {
        if d.addrs[NDIRECT as int] == 0 {
            lemma_alloc_log(s, sb, dev);
        }
        let (s1, d1, r1) = s.map_slot(sb, dev, d, NDIRECT as int)->0;
        if r1 is Ok {
            let ib = r1->Ok_0;
            let id = (dev, ib);
            let k = bn - NDIRECT;
            if crate::le::u32_at(s1.blocks[id], 4 * k) == 0 {
                let h = s1.hold(id);
                lemma_alloc_log(h, sb, dev);
                let (s2, r2) = h.alloc_block(sb, dev)->0;
                if let Ok(b) = r2 {
                    let data = splice(s1.blocks[id], 4 * k, crate::le::u32_bytes(b.0));
                    assert(s2.release(id).writable(id));
                    lemma_write_log(s2.release(id), id, data);
                }
            }
        }
    }
}

/// A file that got new blocks, which were free, is clear of the log.
proof fn lemma_map_clear(
    s: StoreState,
    d: InodeData,
    t: StoreState,
    e: InodeData,
    sb: SuperBlock,
    dev: u32,
    ibk: u32,
    bn: int,
)
    requires
        clear_of_log(s, sb, dev, d, ibk),
        log_kept(s, t),
        bn < MAXFILE,
        maps_only(s, d, t, e, dev, bn),
        fresh_only(s, d, t, e, sb, dev, bn),
    ensures
        clear_of_log(t, sb, dev, e, ibk),
{
    reveal(clear_of_log);
    assert forall|b: u32| #[trigger] in_log(t, b) implies b < sb.size && t.used(sb, dev, b)
        && !t.is_bitmap(sb, b) && !owns(t, dev, e, b) by {
        assert(in_log(s, b));
        assert(s.is_bitmap(sb, b) == t.is_bitmap(sb, b));
        assert(s.used(sb, dev, b));
        assert(t.used(sb, dev, b));
        if owns(t, dev, e, b) {
            if b == e.addrs[NDIRECT as int] {
                if b == d.addrs[NDIRECT as int] {
                    assert(owns(s, dev, d, b));
                }
            } else {
                let i = choose|i: int| 0 <= i < MAXFILE && #[trigger] addr_of(t, dev, e, i) == b;
                if addr_of(s, dev, d, i) == b {
                    assert(owns(s, dev, d, b));
                }
            }
        }
    }
}

/// Mapping a block of a file, or failing to, leaves the file in order.
proof fn lemma_map_ok(s: StoreState, sb: SuperBlock, dev: u32, d: InodeData, ibk: u32, bn: u32)
    requires
        file_ok(s, sb, dev, d, ibk),
        bn < MAXFILE,
        s.map_block(sb, dev, d, bn) is Some,
    ensures
        ({
            let (t, e, r) = s.map_block(sb, dev, d, bn)->0;
            &&& file_ok(t, sb, dev, e, ibk)
            &&& log_kept(s, t)
            &&& t.held == s.held
            &&& e == (InodeData { addrs: e.addrs, ..d })
            &&& r is Err ==> maps_only(s, d, t, e, dev, -1)
            &&& r is Ok ==> maps_only(s, d, t, e, dev, bn as int) && addr_of(t, dev, e, bn as int)
                == r->Ok_0 && r->Ok_0 != 0
        }),
{
    reveal(file_ok);
    let (t, e, r) = s.map_block(sb, dev, d, bn)->0;
    assert(allotted(s, sb, dev, d)) by {
        reveal(tidy);
    }
    lemma_map_log(s, sb, dev, d, bn);
    if r is Ok {
        lemma_map(s, sb, dev, d, ibk, bn);
        lemma_map_allotted(s, sb, dev, d, bn);
        lemma_map_clear(s, d, t, e, sb, dev, ibk, bn as int);
    } else {
        lemma_map_failed(s, sb, dev, d, ibk, bn);
        lemma_map_failed_allotted(s, sb, dev, d, bn);
        lemma_map_clear(s, d, t, e, sb, dev, ibk, -1);
    }
}

/// Writing to a block of the file, or to that of its inode, leaves it clear of the log.
proof fn lemma_write_clear(
    s: StoreState,
    t: StoreState,
    sb: SuperBlock,
    dev: u32,
    d: InodeData,
    e: InodeData,
    ibk: u32,
    a: u32,
    data: Seq<u8>,
)
    requires
        clear_of_log(s, sb, dev, d, ibk),
        t == s.write((dev, a), data),
        !s.is_bitmap(sb, a),
        e.addrs == d.addrs,
        forall|i: int|
            0 <= i < MAXFILE ==> #[trigger] addr_of(t, dev, e, i) == addr_of(s, dev, d, i),
    ensures
        clear_of_log(t, sb, dev, e, ibk),
{
    reveal(clear_of_log);
    assert forall|b: u32| #[trigger] in_log(t, b) implies b < sb.size && t.used(sb, dev, b)
        && !t.is_bitmap(sb, b) && !owns(t, dev, e, b) by {
        assert(in_log(s, b));
        assert(s.is_bitmap(sb, b) == t.is_bitmap(sb, b));
        assert(s.is_bitmap(sb, sb.bitmap_block(b)));
        assert(t.used(sb, dev, b) == s.used(sb, dev, b));
        if owns(t, dev, e, b) {
            if b != e.addrs[NDIRECT as int] {
                let i = choose|i: int| 0 <= i < MAXFILE && #[trigger] addr_of(t, dev, e, i) == b;
                assert(addr_of(s, dev, d, i) == b);
            }
            assert(owns(s, dev, d, b));
        }
    }
}

/// One block of a write.
proof fn lemma_part_written(
    s: StoreState,
    sb: SuperBlock,
    dev: u32,
    d: InodeData,
    ibk: u32,
    offset: int,
    part: Seq<u8>,
)
    requires
        file_ok(s, sb, dev, d, ibk),
        0 <= offset,
        offset + part.len() <= MAXFILE * BSIZE,
        offset % (BSIZE as int) + part.len() <= BSIZE,
        0 < part.len(),
        s.map_block(sb, dev, d, (offset / (BSIZE as int)) as u32) is Some,
        (s.map_block(sb, dev, d, (offset / (BSIZE as int)) as u32)->0).2 is Ok,
        ({
            let (s1, e, r) = s.map_block(sb, dev, d, (offset / (BSIZE as int)) as u32)->0;
            s1.writable((dev, r->Ok_0))
        }),
    ensures
        ({
            let (s1, e, r) = s.map_block(sb, dev, d, (offset / (BSIZE as int)) as u32)->0;
            let id = (dev, r->Ok_0);
            let t = s1.write(id, splice(s1.blocks[id], offset % (BSIZE as int), part));
            &&& file_ok(t, sb, dev, e, ibk)
            &&& wrote(s, d, t, e, dev, offset, part)
            &&& t.held == s.held
            &&& log_kept(s, t)
        }),
{
    let bn = offset / (BSIZE as int);
    lemma_map_ok(s, sb, dev, d, ibk, bn as u32);
    let (s1, e, r) = s.map_block(sb, dev, d, bn as u32)->0;
    let a = r->Ok_0;
    let id = (dev, a);
    let nb = splice(s1.blocks[id], offset % (BSIZE as int), part);
    let t = s1.write(id, nb);
    assert(tidy(s, sb, dev, d, ibk) && quiet(s, dev, d)) by {
        reveal(file_ok);
    }
    lemma_write_step(s, sb, dev, d, ibk, offset, part);
    lemma_write_log(s1, id, nb);
    assert(owns(s1, dev, e, a));
    assert(!s1.is_bitmap(sb, a) && nb.len() == BSIZE && (a != e.addrs[NDIRECT as int])) by {
        reveal(file_ok);
        reveal(tidy);
        reveal(allotted);
        reveal(crate::fs::laws::distinct);
    }
    assert(tidy(s1, sb, dev, e, ibk) && clear_of_log(s1, sb, dev, e, ibk)) by {
        reveal(file_ok);
    }
    lemma_tidy_write(s1, sb, dev, e, ibk, a, nb);
    lemma_write_clear(s1, t, sb, dev, e, e, ibk, a, nb);
    assert(file_ok(t, sb, dev, e, ibk)) by {
        reveal(file_ok);
    }
}

/// What writing the bytes of a process to a file does: as many as are counted are written, each where
/// it belongs, and none of its memory changes.
pub proof fn law_write_bytes_user(
    s: StoreState,
    sb: SuperBlock,
    dev: u32,
    d: InodeData,
    ibk: u32,
    offset: int,
    n: int,
    m: UserMem,
    size: int,
    src: int,
)
    requires
        file_ok(s, sb, dev, d, ibk),
        m.whole(),
        0 <= offset,
        0 <= n,
        0 <= src,
        offset + n <= MAXFILE * BSIZE,
        s.write_bytes_user(sb, dev, d, offset, n, m, size, src) is Some,
    ensures
        ({
            let (t, e, m1, end) = s.write_bytes_user(sb, dev, d, offset, n, m, size, src)->0;
            let bytes = m1.bytes_at(src, end - offset);
            &&& offset <= end <= offset + n
            &&& file_ok(t, sb, dev, e, ibk)
            &&& t.held == s.held
            &&& log_kept(s, t)
            &&& m.same_bytes(m1)
            &&& m1.whole()
            &&& m1.shows(src, bytes)
            &&& wrote(s, d, t, e, dev, offset, bytes)
        }),
    decreases n,
{
    let (t, e, m1, end) = s.write_bytes_user(sb, dev, d, offset, n, m, size, src)->0;
    if n <= 0 {
        lemma_nothing(s, sb, d, dev, ibk, m, offset, src);
    } else {
        let c = chunk(offset, n);
        let bn = offset / (BSIZE as int);
        lemma_map_ok(s, sb, dev, d, ibk, bn as u32);
        let (s1, d1, r1) = s.map_block(sb, dev, d, bn as u32)->0;
        if r1 is Err {
            lemma_nothing_written(s, d, s1, d1, sb, dev, ibk, -1, m, m, offset, src);
        } else {
            law_copy_from_bytes(m, size, src, c, seq![]);
            let (m2, copied) = m.copy_from(size, src, c, seq![])->0;
            if let Ok(bytes) = copied {
                assert(bytes.skip(0) =~= bytes);
                let id = (dev, r1->Ok_0);
                lemma_part_written(s, sb, dev, d, ibk, offset, bytes);
                let s2 = s1.write(id, splice(s1.blocks[id], offset % (BSIZE as int), bytes));
                law_write_bytes_user(s2, sb, dev, d1, ibk, offset + c, n - c, m2, size, src + c);
                assert((t, e, m1, end) == s2.write_bytes_user(
                    sb,
                    dev,
                    d1,
                    offset + c,
                    n - c,
                    m2,
                    size,
                    src + c,
                )->0);
                let rest = m1.bytes_at(src + c, end - offset - c);
                m.lemma_same_trans(m2, m1);
                m2.lemma_same_shows(m1, src, bytes);
                m1.lemma_shows_both(src, bytes, rest);
                m1.lemma_bytes_at(src, bytes + rest);
                lemma_wrote_both(s, d, s2, d1, t, e, dev, offset, bytes, rest);
            } else {
                lemma_nothing_written(s, d, s1, d1, sb, dev, ibk, bn, m, m2, offset, src);
            }
        }
    }
}

proof fn lemma_nothing(
    s: StoreState,
    sb: SuperBlock,
    d: InodeData,
    dev: u32,
    ibk: u32,
    m: UserMem,
    offset: int,
    src: int,
)
    requires
        file_ok(s, sb, dev, d, ibk),
    ensures
        m.same_bytes(m),
        m.shows(src, m.bytes_at(src, 0)),
        wrote(s, d, s, d, dev, offset, m.bytes_at(src, 0)),
{
    lemma_nothing_written(s, d, s, d, sb, dev, ibk, -1, m, m, offset, src);
}

proof fn lemma_nothing_written(
    s: StoreState,
    d: InodeData,
    t: StoreState,
    e: InodeData,
    sb: SuperBlock,
    dev: u32,
    ibk: u32,
    bn: int,
    m: UserMem,
    m1: UserMem,
    offset: int,
    src: int,
)
    requires
        file_ok(t, sb, dev, e, ibk),
        maps_only(s, d, t, e, dev, bn),
    ensures
        m.same_bytes(m),
        m1.shows(src, m1.bytes_at(src, 0)),
        wrote(s, d, t, e, dev, offset, m1.bytes_at(src, 0)),
{
    assert(tidy(t, sb, dev, e, ibk)) by {
        reveal(file_ok);
    }
    lemma_wrote_nothing(s, d, t, e, sb, dev, ibk, bn, offset);
    assert(m1.bytes_at(src, 0) =~= Seq::<u8>::empty());
}

/// The same with the inode, which says then how far the file reaches.
pub proof fn law_write_user(
    s: StoreState,
    sb: SuperBlock,
    dev: u32,
    inum: u32,
    d: InodeData,
    offset: u32,
    n: u32,
    m: UserMem,
    size: int,
    src: int,
)
    requires
        file_ok(s, sb, dev, d, sb.inode_block(inum)),
        m.whole(),
        0 <= src,
        s.write_user(sb, dev, inum, d, offset, n, m, size, src) is Some,
    ensures
        ({
            let (t, e, m1, r) = s.write_user(sb, dev, inum, d, offset, n, m, size, src)->0;
            &&& file_ok(t, sb, dev, e, sb.inode_block(inum))
            &&& t.held == s.held
            &&& log_kept(s, t)
            &&& m.same_bytes(m1)
            &&& m1.whole()
            &&& e == (InodeData { addrs: e.addrs, size: e.size, ..d })
            &&& match r {
                Ok(w) => {
                    let bytes = m1.bytes_at(src, w as int);
                    &&& w <= n
                    &&& m1.shows(src, bytes)
                    &&& wrote(s, InodeData { size: e.size, ..d }, t, e, dev, offset as int, bytes)
                    &&& e.size == (if offset + w > d.size {
                        offset + w
                    } else {
                        d.size as int
                    })
                },
                Err(x) => {
                    &&& x == FsError::Write
                    &&& offset > d.size || offset + n > MAXFILE * BSIZE
                    &&& t == s && e == d && m1 == m
                },
            }
        }),
{
    let ibk = sb.inode_block(inum);
    let (t, e, m1, r) = s.write_user(sb, dev, inum, d, offset, n, m, size, src)->0;
    assert(m.same_bytes(m));
    if offset > d.size || offset + n > MAXFILE * BSIZE {
    } else {
        law_write_bytes_user(s, sb, dev, d, ibk, offset as int, n as int, m, size, src);
        let (t1, e1, m2, end) = s.write_bytes_user(
            sb,
            dev,
            d,
            offset as int,
            n as int,
            m,
            size,
            src,
        )->0;
        let bytes = m1.bytes_at(src, end - offset);
        assert(tidy(t1, sb, dev, e1, ibk) && quiet(t1, dev, e1) && clear_of_log(
            t1,
            sb,
            dev,
            e1,
            ibk,
        )) by {
            reveal(file_ok);
        }
        lemma_inode_written(s, t1, t, sb, dev, inum, d, e1, e, offset as int, bytes);
        let id = (dev, ibk);
        let nb = splice(
            t1.blocks[id],
            crate::fs::inode::dinode_offset(inum),
            crate::fs::inode::dinode_bytes(e),
        );
        lemma_write_log(t1, id, nb);
        assert(!t1.is_bitmap(sb, ibk)) by {
            reveal(tidy);
        }
        lemma_write_clear(t1, t, sb, dev, e1, e, ibk, ibk, nb);
        assert(file_ok(t, sb, dev, e, ibk)) by {
            reveal(file_ok);
        }
        assert(e1 == (InodeData { addrs: e1.addrs, ..d })) by {
            reveal(wrote);
        }
        assert(r == Ok::<u32, FsError>((end - offset) as u32));
        assert(m2 == m1);
    }
}

/// Reading a file without holes puts its bytes where they belong in the memory of the process, and
/// changes no other byte and nothing in the file. If it fails, a byte there cannot be written.
pub proof fn law_read_bytes_user(
    s: StoreState,
    sb: SuperBlock,
    dev: u32,
    d: InodeData,
    offset: int,
    n: int,
    done: int,
    m: UserMem,
    size: int,
    dst: int,
)
    requires
        s.sized(),
        quiet(s, dev, d),
        d.addrs.len() == crate::fs::NADDRS,
        m.whole(),
        0 <= offset,
        0 <= n,
        0 <= dst,
        0 <= done,
        done + n <= u32::MAX,
        offset + n <= MAXFILE * BSIZE,
        n > 0 ==> mapped(
            s,
            dev,
            d,
            offset / (BSIZE as int),
            (offset + n - 1) / (BSIZE as int) + 1,
        ),
        s.read_bytes_user(sb, dev, d, offset, n, done, m, size, dst) is Some,
    ensures
        ({
            let (t, e, m1, r) = s.read_bytes_user(
                sb,
                dev,
                d,
                offset,
                n,
                done,
                m,
                size,
                dst,
            )->0;
            &&& t == s && e == d
            &&& m1.whole()
            &&& m.only_within(m1, dst, dst + n)
            &&& match r {
                Ok(k) => k == done + n && m1.shows(dst, bytes_of(s, dev, d, offset, offset + n)),
                Err(x) => x == FsError::Read && exists|a: int|
                    dst <= a < dst + n && !#[trigger] m1.can_write(a),
            }
        }),
    decreases n,
{
    let all = bytes_of(s, dev, d, offset, offset + n);
    if n <= 0 {
        assert(m.same_bytes(m));
        m.lemma_same_within(m, dst, dst + n);
    } else {
        let bn = offset / (BSIZE as int);
        let o = offset % (BSIZE as int);
        let c = chunk(offset, n);
        let a = addr_of(s, dev, d, bn);
        assert(a != 0);
        lemma_map_mapped(s, sb, dev, d, bn as u32);
        lemma_quiet(s, dev, d, bn);
        let part = s.blocks[(dev, a)].subrange(o, o + c);
        assert(s.blocks[(dev, a)].len() == BSIZE);
        assert(part =~= all.take(c)) by {
            assert forall|i: int| 0 <= i < c implies part[i] == byte_of(s, dev, d, offset + i) by {
                assert((offset + i) / (BSIZE as int) == bn && (offset + i) % (BSIZE as int) == o + i);
            }
        }
        law_copy_to_bytes(m, size, dst, part);
        let (m2, put) = m.copy_to(size, dst, part)->0;
        if put is Ok {
            if n > c {
                assert((offset + c) / (BSIZE as int) == bn + 1);
            }
            law_read_bytes_user(s, sb, dev, d, offset + c, n - c, done + c, m2, size, dst + c);
            let (t, e, m1, r) = s.read_bytes_user(
                sb,
                dev,
                d,
                offset,
                n,
                done,
                m,
                size,
                dst,
            )->0;
            assert((t, e, m1, r) == s.read_bytes_user(
                sb,
                dev,
                d,
                offset + c,
                n - c,
                done + c,
                m2,
                size,
                dst + c,
            )->0);
            lemma_widen(m, m2, dst, dst + c, dst, dst + n);
            lemma_widen(m2, m1, dst + c, dst + n, dst, dst + n);
            m.lemma_within_trans(m2, m1, dst, dst + n);
            if r is Ok {
                m2.lemma_still_shows(m1, dst, part, dst + c, dst + n);
                let rest = bytes_of(s, dev, d, offset + c, offset + n);
                m1.lemma_shows_both(dst, part, rest);
                assert(part + rest =~= all);
            } else {
                let x = choose|x: int| dst + c <= x < dst + n && !#[trigger] m1.can_write(x);
                assert(!m1.can_write(x));
            }
        } else {
            lemma_widen(m, m2, dst, dst + c, dst, dst + n);
            let x = choose|x: int| dst <= x < dst + c && !#[trigger] m2.can_write(x);
            assert(!m2.can_write(x));
        }
    }
}

/// Changes within a range are within a larger one.
pub proof fn lemma_widen(m: UserMem, m1: UserMem, a: int, b: int, from: int, to: int)
    requires
        m.only_within(m1, a, b),
        from <= a,
        b <= to,
    ensures
        m.only_within(m1, from, to),
{
    assert forall|x: int|
        0 <= x && !(from <= x < to) && x / (crate::riscv::PGSIZE as int)
            < crate::vm::usermem::UPAGES implies #[trigger] m.byte_kept(m1, x) by {
        assert(!(a <= x < b));
    }
}

/// Reading `n` bytes gives what there is up to the end of the file, and exactly that.
pub proof fn law_read_user(
    s: StoreState,
    sb: SuperBlock,
    dev: u32,
    d: InodeData,
    offset: u32,
    n: u32,
    m: UserMem,
    size: int,
    dst: int,
)
    requires
        s.sized(),
        quiet(s, dev, d),
        d.addrs.len() == crate::fs::NADDRS,
        d.size <= MAXFILE * BSIZE,
        mapped(s, dev, d, 0, (d.size + BSIZE - 1) / (BSIZE as int)),
        m.whole(),
        0 <= dst,
        offset <= d.size,
        offset + n <= u32::MAX,
        s.read_user(sb, dev, d, offset, n, m, size, dst) is Some,
    ensures
        ({
            let (t, e, m1, r) = s.read_user(sb, dev, d, offset, n, m, size, dst)->0;
            let end = if offset + n > d.size {
                d.size as int
            } else {
                offset + n
            };
            &&& t == s && e == d
            &&& m1.whole()
            &&& m.only_within(m1, dst, dst + (end - offset))
            &&& match r {
                Ok(k) => k == end - offset && m1.shows(
                    dst,
                    bytes_of(s, dev, d, offset as int, end),
                ),
                Err(x) => exists|a: int|
                    dst <= a < dst + (end - offset) && !#[trigger] m1.can_write(a),
            }
        }),
{
    let end = if offset + n > d.size {
        d.size as int
    } else {
        offset + n
    };
    law_read_bytes_user(s, sb, dev, d, offset as int, end - offset, 0, m, size, dst);
}

} // verus!
