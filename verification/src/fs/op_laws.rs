//! What discarding a file means, and removing its names.
use vstd::prelude::*;
use crate::abi::SysError;
use crate::fs::dir::{padded, DirEntry, Directory};
use crate::fs::dir_laws::{
    dir_ok,
    entry_at,
    found_at,
    free_at,
    law_entry_written,
    law_link_then_lookup,
    law_lookup,
    lemma_bytes_beside,
    lemma_bytes_written,
    lemma_entry_roundtrip,
    lemma_read_entry,
    linked_at,
    looks_up,
    names_at,
    same_names,
    unnamed,
};
use crate::fs::inode::{dinode_at, indirect, lemma_dinode_roundtrip, InodeData, InodeType};
use crate::fs::laws::{addr_of, allotted, law_free, mapped, owns, tidy};
use crate::fs::ops::is_dots;
use crate::fs::table::FsState;
use crate::fs::{FsError, Inode, SuperBlock, DIRSIZE, MAXFILE, NADDRS, NDIRECT};
use crate::log::StoreState;
use crate::param::NINODE;
use crate::virtio_disk::{BlockId, BSIZE};

verus! {

/// Exactly the blocks of `gone` became free from `s` to `t`, and no block but those of the bitmap
/// was written.
pub open spec fn freed(s: StoreState, t: StoreState, sb: SuperBlock, dev: u32, gone: spec_fn(u32) -> bool) -> bool {
    &&& forall|c: u32|
        c < sb.size ==> #[trigger] t.used(sb, dev, c) == (s.used(sb, dev, c) && !gone(c))
    &&& forall|id: BlockId|
        id.0 != dev || !s.is_bitmap(sb, id.1) ==> #[trigger] t.blocks[id] == s.blocks[id]
    &&& t.sized()
}

/// Freeing blocks one after the other frees exactly those.
proof fn lemma_free_all(s: StoreState, sb: SuperBlock, dev: u32, addrs: Seq<u32>)
    requires
        s.sized(),
        sb.in_range(),
        forall|i: int| 0 <= i < addrs.len() ==> #[trigger] addrs[i] < sb.size,
        s.free_all(sb, dev, addrs) is Some,
    ensures
        freed(s, s.free_all(sb, dev, addrs)->0, sb, dev, |c: u32| c != 0 && addrs.contains(c)),
    decreases addrs.len(),
{
    let t = s.free_all(sb, dev, addrs)->0;
    if addrs.len() > 0 {
        let rest = addrs.skip(1);
        assert forall|i: int| 0 <= i < rest.len() implies #[trigger] rest[i] < sb.size by {
            assert(rest[i] == addrs[i + 1]);
        }
        let s1 = if addrs[0] == 0 {
            s
        } else {
            s.free_block(sb, dev, addrs[0])->0
        };
        if addrs[0] != 0 {
            law_free(s, sb, dev, addrs[0]);
            assert(s1.sized()) by {
                assert forall|id: BlockId| (#[trigger] s1.blocks[id]).len() == BSIZE
                    && s1.blocks.contains_key(id) by {
                    assert(s.blocks[id].len() == BSIZE);
                }
            }
        }
        lemma_free_all(s1, sb, dev, rest);
        assert forall|c: u32| c < sb.size implies #[trigger] t.used(sb, dev, c) == (s.used(
            sb,
            dev,
            c,
        ) && !(c != 0 && addrs.contains(c))) by {
            assert(s1.used(sb, dev, c) == (s.used(sb, dev, c) && !(c != 0 && c == addrs[0])));
            if addrs.contains(c) && c != addrs[0] {
                let i = addrs.index_of(c);
                assert(rest[i - 1] == c);
            }
            if rest.contains(c) {
                let i = rest.index_of(c);
                assert(addrs[i + 1] == c);
            }
        }
        assert forall|id: BlockId| id.0 != dev || !s.is_bitmap(sb, id.1) implies #[trigger] t.blocks[id]
            == s.blocks[id] by {
            assert(s1.is_bitmap(sb, id.1) == s.is_bitmap(sb, id.1));
            assert(s1.blocks[id] == s.blocks[id]);
        }
    }
}

/// Discarding the contents of a file leaves it with no bytes and no blocks. Every block that it had
/// is free, the indirect one and those that it lists, too, and no other block. Nothing else about
/// the file changes, and no other block on the disk but that of its inode and the bitmap.
pub proof fn law_truncate(s: StoreState, sb: SuperBlock, dev: u32, inum: u32, d: InodeData)
    requires
        tidy(s, sb, dev, d, sb.inode_block(inum)),
        s.trunc_inode(sb, dev, inum, d) is Some,
    ensures
        ({
            let (t, e) = s.trunc_inode(sb, dev, inum, d)->0;
            &&& e.size == 0
            &&& e.addrs.len() == NADDRS
            &&& forall|i: int| 0 <= i < NADDRS ==> #[trigger] e.addrs[i] == 0
            &&& e == (InodeData { size: e.size, addrs: e.addrs, ..d })
            &&& forall|a: u32| !#[trigger] owns(t, dev, e, a)
            &&& forall|c: u32|
                c < sb.size ==> #[trigger] t.used(sb, dev, c) == (s.used(sb, dev, c) && !owns(
                    s,
                    dev,
                    d,
                    c,
                ))
            &&& forall|id: BlockId|
                id != (dev, sb.inode_block(inum)) && (id.0 != dev || !s.is_bitmap(sb, id.1))
                    ==> #[trigger] t.blocks[id] == s.blocks[id]
            &&& dinode_at(t.blocks[(dev, sb.inode_block(inum))], inum) == (InodeData {
                valid: true,
                ..e
            })
            &&& t.sized()
        }),
{
    reveal(tidy);
    reveal(allotted);
    let (t, e) = s.trunc_inode(sb, dev, inum, d)->0;
    let direct = d.addrs.take(NDIRECT as int);
    let ib = d.addrs[NDIRECT as int];
    let ibk = sb.inode_block(inum);
    assert forall|i: int| 0 <= i < direct.len() implies #[trigger] direct[i] < sb.size by {
        assert(addr_of(s, dev, d, i) == direct[i]);
        assert(direct[i] != 0 ==> owns(s, dev, d, direct[i]));
    }
    lemma_free_all(s, sb, dev, direct);
    let s1 = s.free_all(sb, dev, direct)->0;
    let s2 = s1.free_indirect(sb, dev, ib)->0;
    let list = indirect(s.blocks[(dev, ib)]);
    assert forall|c: u32| #[trigger] owns(s, dev, d, c) <==> c != 0 && (direct.contains(c) || (ib != 0
        && (c == ib || list.contains(c)))) by {
        if owns(s, dev, d, c) && c != ib {
            let bn = choose|bn: int| 0 <= bn < MAXFILE && #[trigger] addr_of(s, dev, d, bn) == c;
            if bn < NDIRECT {
                assert(direct[bn] == c);
            } else {
                assert(list[bn - NDIRECT] == c);
            }
        }
        if c != 0 && direct.contains(c) {
            let i = direct.index_of(c);
            assert(addr_of(s, dev, d, i) == c);
        }
        if c != 0 && ib != 0 && list.contains(c) {
            let i = list.index_of(c);
            assert(addr_of(s, dev, d, i + NDIRECT) == c);
        }
    }
    assert forall|b: u32| #[trigger] s1.is_bitmap(sb, b) == s.is_bitmap(sb, b) by {}
    if ib != 0 {
        assert(owns(s, dev, d, ib));
        let id = (dev, ib);
        assert(s1.blocks[id] == s.blocks[id]);
        assert forall|i: int| 0 <= i < list.len() implies #[trigger] list[i] < sb.size by {
            assert(addr_of(s, dev, d, i + NDIRECT) == list[i]);
            assert(list[i] != 0 ==> owns(s, dev, d, list[i]));
        }
        let h = s1.hold(id);
        assert(h.sized()) by {
            assert forall|x: BlockId| (#[trigger] h.blocks[x]).len() == BSIZE
                && h.blocks.contains_key(x) by {
                assert(s1.blocks[x].len() == BSIZE);
            }
        }
        lemma_free_all(h, sb, dev, list);
        let g = h.free_all(sb, dev, list)->0;
        let g1 = g.release(id);
        assert(g1.sized()) by {
            assert forall|x: BlockId| (#[trigger] g1.blocks[x]).len() == BSIZE
                && g1.blocks.contains_key(x) by {
                assert(g.blocks[x].len() == BSIZE);
            }
        }
        law_free(g1, sb, dev, ib);
        assert forall|c: u32| c < sb.size implies #[trigger] s2.used(sb, dev, c) == (s.used(
            sb,
            dev,
            c,
        ) && !owns(s, dev, d, c)) by {
            assert(s1.used(sb, dev, c) == (s.used(sb, dev, c) && !(c != 0 && direct.contains(c))));
            assert(h.used(sb, dev, c) == s1.used(sb, dev, c));
            assert(g.used(sb, dev, c) == (h.used(sb, dev, c) && !(c != 0 && list.contains(c))));
            assert(g1.used(sb, dev, c) == g.used(sb, dev, c));
            if c != ib {
                assert(s2.used(sb, dev, c) == g1.used(sb, dev, c));
            }
        }
        assert forall|x: BlockId| x.0 != dev || !s.is_bitmap(sb, x.1) implies #[trigger] s2.blocks[x]
            == s.blocks[x] by {
            assert(g1.is_bitmap(sb, x.1) == s.is_bitmap(sb, x.1));
            assert(h.is_bitmap(sb, x.1) == s.is_bitmap(sb, x.1));
            assert(s1.blocks[x] == s.blocks[x]);
            assert(g.blocks[x] == h.blocks[x]);
        }
        assert(s2.sized()) by {
            assert forall|x: BlockId| (#[trigger] s2.blocks[x]).len() == BSIZE
                && s2.blocks.contains_key(x) by {
                assert(g1.blocks[x].len() == BSIZE);
            }
        }
    } else {
        assert forall|c: u32| c < sb.size implies #[trigger] s2.used(sb, dev, c) == (s.used(
            sb,
            dev,
            c,
        ) && !owns(s, dev, d, c)) by {
            assert(s1.used(sb, dev, c) == (s.used(sb, dev, c) && !(c != 0 && direct.contains(c))));
        }
    }
    assert forall|c: u32| c < sb.size implies #[trigger] t.used(sb, dev, c) == s2.used(sb, dev, c) by {
        assert(s.is_bitmap(sb, sb.bitmap_block(c)));
    }
    assert(s2.blocks[(dev, ibk)].len() == BSIZE);
    lemma_dinode_roundtrip(s2.blocks[(dev, ibk)], inum, e);
    assert(t.sized()) by {
        assert forall|x: BlockId| (#[trigger] t.blocks[x]).len() == BSIZE && t.blocks.contains_key(x) by {
            assert(s2.blocks[x].len() == BSIZE);
        }
    }
    assert forall|a: u32| !#[trigger] owns(t, dev, e, a) by {
        if owns(t, dev, e, a) {
            let bn = choose|bn: int| 0 <= bn < MAXFILE && #[trigger] addr_of(t, dev, e, bn) == a;
            assert(e.addrs[NDIRECT as int] == 0);
        }
    }
}

/// Dropping a reference to an inode. A file that has names, or others who use it, stays as it is. One
/// without names goes with the last reference: all its blocks are free, and so is the inode.
pub proof fn law_put(s: FsState, ino: Inode)
    requires
        s.put(ino) is Some,
        s.meta.len() == NINODE,
        s.inner.len() == NINODE,
        tidy(s.store, s.sb, ino.dev, s.inner[ino.id as int], s.sb.inode_block(ino.inum)),
    ensures
        ({
            let t = s.put(ino)->0;
            let i = ino.id as int;
            let d = s.inner[i];
            let dev = ino.dev;
            &&& t.meta[i].refs == s.meta[i].refs - 1
            &&& forall|j: int| 0 <= j < NINODE && j != i ==> #[trigger] t.meta[j] == s.meta[j]
            &&& forall|j: int| 0 <= j < NINODE && j != i ==> #[trigger] t.inner[j] == s.inner[j]
            &&& t.locked == s.locked
            &&& if s.meta[i].refs > 1 || !d.valid || d.nlink > 0 {
                t.store == s.store && t.inner == s.inner
            } else {
                &&& forall|c: u32|
                    c < s.sb.size ==> #[trigger] t.store.used(s.sb, dev, c) == (s.store.used(
                        s.sb,
                        dev,
                        c,
                    ) && !owns(s.store, dev, d, c))
                &&& dinode_at(
                    t.store.blocks[(dev, s.sb.inode_block(ino.inum))],
                    ino.inum,
                ).typ == InodeType::Free
                &&& !t.inner[i].valid
            }
        }),
{
    reveal(FsState::put);
    let i = ino.id as int;
    let d = s.inner[i];
    let dev = ino.dev;
    let ibk = s.sb.inode_block(ino.inum);
    if s.meta[i].refs == 1 && d.valid && d.nlink == 0 {
        law_truncate(s.store, s.sb, dev, ino.inum, d);
        let (t1, e) = s.store.trunc_inode(s.sb, dev, ino.inum, d)->0;
        let e2 = InodeData { typ: InodeType::Free, ..e };
        let t = s.put(ino)->0;
        assert(t1.blocks[(dev, ibk)].len() == BSIZE);
        lemma_dinode_roundtrip(t1.blocks[(dev, ibk)], ino.inum, e2);
        reveal(tidy);
        assert forall|c: u32| c < s.sb.size implies #[trigger] t.store.used(s.sb, dev, c) == t1.used(
            s.sb,
            dev,
            c,
        ) by {
            assert(s.store.is_bitmap(s.sb, s.sb.bitmap_block(c)));
        }
    }
}

/// A directory is empty if no entry behind the first two, which are for itself and its parent, is in
/// use.
pub proof fn law_empty_directory(
    s: StoreState,
    sb: SuperBlock,
    dev: u32,
    d: InodeData,
    ibk: u32,
    offset: int,
)
    requires
        dir_ok(s, sb, dev, d, ibk),
        0 <= offset,
        offset % (Directory::SIZE as int) == 0,
    ensures
        ({
            let r = s.all_free(sb, dev, d, offset, d.size as int);
            &&& r is Some
            &&& (r->0).0 == s && (r->0).1 == d
            &&& (r->0).2 <==> forall|o: int|
                offset <= o < d.size && o % (Directory::SIZE as int) == 0 ==> #[trigger] free_at(
                    s,
                    dev,
                    d,
                    o,
                )
        }),
    decreases d.size + Directory::SIZE - offset,
{
    if offset < d.size {
        lemma_read_entry(s, sb, dev, d, ibk, offset);
        if entry_at(s, dev, d, offset).inum == 0 {
            law_empty_directory(s, sb, dev, d, ibk, offset + Directory::SIZE);
            assert(free_at(s, dev, d, offset));
            let r = s.all_free(sb, dev, d, offset, d.size as int);
            assert forall|o: int|
                (r->0).2 && offset <= o < d.size && o % (Directory::SIZE as int) == 0 implies #[trigger] free_at(
                s,
                dev,
                d,
                o,
            ) by {
                if o != offset {
                    assert(offset + Directory::SIZE <= o);
                }
            }
        } else {
            assert(!free_at(s, dev, d, offset));
        }
    }
}

/// Clearing the entry of a name takes that entry away, and leaves the entries of all other names.
pub proof fn law_name_removed(
    s: StoreState,
    sb: SuperBlock,
    dev: u32,
    inum: u32,
    d: InodeData,
    name: Seq<u8>,
    at: u32,
    other: Seq<u8>,
)
    requires
        dir_ok(s, sb, dev, d, sb.inode_block(inum)),
        names_at(s, dev, d, name, at as int),
        forall|o: int| #[trigger] names_at(s, dev, d, name, o) ==> o == at,
        ({
            let entry = (DirEntry { inum: 0, name: padded(seq![]) }).bytes();
            s.write_inode(sb, dev, inum, d, at, entry) matches Some((_, _, Ok(n))) && n
                == Directory::SIZE
        }),
    ensures
        ({
            let entry = (DirEntry { inum: 0, name: padded(seq![]) }).bytes();
            let (t, e, _) = s.write_inode(sb, dev, inum, d, at, entry)->0;
            &&& dir_ok(t, sb, dev, e, sb.inode_block(inum))
            &&& forall|o: int| !#[trigger] names_at(t, dev, e, name, o)
            &&& free_at(t, dev, e, at as int)
            &&& !names_at(s, dev, d, other, at as int) ==> same_names(s, d, t, e, dev, other)
            &&& e.size == d.size
        }),
{
    reveal(names_at);
    reveal(same_names);
    let entry = DirEntry { inum: 0, name: padded(seq![]) };
    let src = entry.bytes();
    lemma_entry_roundtrip(0, seq![]);
    law_entry_written(s, sb, dev, inum, d, at, src);
    let (t, e, _) = s.write_inode(sb, dev, inum, d, at, src)->0;
    let d2 = InodeData { size: e.size, ..d };
    lemma_bytes_written(s, t, dev, d2, e, at as int, src);
    assert(d.size as int % (Directory::SIZE as int) == 0 && d.size <= MAXFILE * BSIZE) by {
        reveal(dir_ok);
    }
    assert(mapped(s, dev, d, 0, (d.size + BSIZE - 1) / (BSIZE as int))) by {
        reveal(dir_ok);
    }
    assert(e.size == d.size);
    assert forall|o: int|
        0 <= o < d.size && o % (Directory::SIZE as int) == 0 && o != at implies #[trigger] entry_at(
        t,
        dev,
        e,
        o,
    ) == entry_at(s, dev, d, o) by {
        assert(o + Directory::SIZE <= at || at + Directory::SIZE <= o);
        lemma_bytes_beside(s, t, dev, d, e, at as int, src, o, o + Directory::SIZE);
    }
    assert(entry_at(t, dev, e, at as int).inum == 0);
    assert forall|o: int| !#[trigger] names_at(t, dev, e, name, o) by {
        if names_at(t, dev, e, name, o) {
            assert(entry_at(t, dev, e, o) == entry_at(s, dev, d, o));
            assert(names_at(s, dev, d, name, o));
        }
    }
    if !names_at(s, dev, d, other, at as int) {
        assert forall|o: int|
            #![trigger names_at(s, dev, d, other, o)]
            #![trigger names_at(t, dev, e, other, o)]
            names_at(t, dev, e, other, o) == names_at(s, dev, d, other, o) && (names_at(
                s,
                dev,
                d,
                other,
                o,
            ) ==> entry_at(t, dev, e, o).inum == entry_at(s, dev, d, o).inum) by {
            if o != at && 0 <= o < e.size && o % (Directory::SIZE as int) == 0 {
                assert(entry_at(t, dev, e, o) == entry_at(s, dev, d, o));
            }
        }
    }
}

/// Looking up a name that is not there.
proof fn lemma_not_there(s: FsState, parent: Inode, pd: InodeData, name: Seq<u8>)
    requires
        dir_ok(s.store, s.sb, parent.dev, pd, s.sb.inode_block(parent.inum)),
        forall|o: int| !#[trigger] names_at(s.store, parent.dev, pd, name, o),
    ensures
        s.dir_lookup(parent, pd, name) == Some(
            (s, pd, Ok::<Option<(u32, Inode)>, FsError>(None)),
        ),
{
    reveal(FsState::dir_lookup);
    law_lookup(s.store, s.sb, parent.dev, pd, s.sb.inode_block(parent.inum), name, 0);
    assert(s.with_store(s.store) == s);
    assert(pd.typ == InodeType::Directory) by {
        reveal(dir_ok);
    }
}

/// What cannot be unlinked: a directory from within itself, and a name that is not there.
pub proof fn law_unlink_refused(s: FsState, parent: Inode, pd: InodeData, name: Seq<u8>)
    requires
        dir_ok(s.store, s.sb, parent.dev, pd, s.sb.inode_block(parent.inum)),
        name == seq![0x2eu8] || name == seq![0x2eu8, 0x2eu8] || forall|o: int|
            !#[trigger] names_at(s.store, parent.dev, pd, name, o),
        s.unlink_name(parent, pd, name) is Some,
    ensures
        (s.unlink_name(parent, pd, name)->0).1 == Err::<u64, SysError>(
            if name == seq![0x2eu8] || name == seq![0x2eu8, 0x2eu8] {
                SysError::InvalidArgument
            } else {
                SysError::NoEntry
            },
        ),
        Some((s.unlink_name(parent, pd, name)->0).0) == s.unlock_put(parent, pd),
{
    if !is_dots(name) {
        lemma_not_there(s, parent, pd, name);
        assert(s.unlink_name(parent, pd, name) == s.refuse(parent, pd, SysError::NoEntry));
    } else {
        assert(s.unlink_name(parent, pd, name) == s.refuse(
            parent,
            pd,
            SysError::InvalidArgument,
        ));
    }
}

/// A link more or less is on the disk and seen by whoever locks the inode next.
pub proof fn law_relink(s: FsState, ino: Inode, d: InodeData, by: int)
    requires
        s.inner.len() == NINODE,
        s.locked.len() == NINODE,
        ino.id < NINODE,
        d.valid,
        d.addrs.len() == NADDRS,
        s.store.sized(),
        0 <= d.nlink + by <= u16::MAX,
        s.relink_locked(ino, d, by) is Some,
    ensures
        ({
            let t = s.relink_locked(ino, d, by)->0;
            let e = (t.lock(ino)->0).1;
            &&& t.lock(ino) is Some
            &&& e.nlink == d.nlink + by
            &&& e == (InodeData { nlink: e.nlink, ..d })
            &&& dinode_at(t.store.blocks[(ino.dev, t.sb.inode_block(ino.inum))], ino.inum) == e
        }),
{
    reveal(FsState::lock);
    let id = (ino.dev, s.sb.inode_block(ino.inum));
    assert(s.store.blocks[id].len() == BSIZE);
    lemma_dinode_roundtrip(
        s.store.blocks[id],
        ino.inum,
        InodeData { nlink: (d.nlink + by) as u16, ..d },
    );
}

/// The inode `ino` has `n` names in `s`: on the disk, and for whoever locks it next.
pub open spec fn has_links(s: FsState, ino: Inode, n: int) -> bool {
    &&& s.lock(ino) matches Some((_, e)) && e.nlink == n
    &&& s.on_disk(ino.dev, ino.inum).nlink == n
}

/// Another name for a file: it is entered when the file already counts it, so that no file has more
/// names than it counts. A directory gets no second name.
pub proof fn law_link_counts(s: FsState, old_path: Seq<u8>, new_path: Seq<u8>, cwd: Inode, ino: Inode, d: InodeData)
    requires
        s.resolve(old_path, cwd, false) matches Some((a, Ok((i, _)))) && i == ino && (a.lock(
            ino,
        ) matches Some((b, e)) && e == d && b.inner.len() == NINODE && b.locked.len() == NINODE
            && b.store.sized()),
        ino.id < NINODE,
        d.valid,
        d.addrs.len() == NADDRS,
        s.link(old_path, new_path, cwd) is Some,
    ensures
        ({
            let (t, r) = s.link(old_path, new_path, cwd)->0;
            if d.typ == InodeType::Directory {
                r == Err::<u64, SysError>(SysError::NotPermitted)
            } else {
                exists|u: FsState| #[trigger]
                    has_links(u, ino, d.nlink + 1) && (u.link_new(ino, new_path, cwd) matches Some(
                        (v, x),
                    ) && r == x && (x is Ok ==> v.put(ino) == Some(t)))
            }
        }),
{
    let (a, _) = s.resolve(old_path, cwd, false)->0;
    let (b, _) = a.lock(ino)->0;
    if d.typ != InodeType::Directory {
        law_relink(b, ino, d, 1);
        let u = b.relink_locked(ino, d, 1)->0;
        assert(has_links(u, ino, d.nlink + 1));
        let (v, x) = u.link_new(ino, new_path, cwd)->0;
        assert(s.link(old_path, new_path, cwd) == v.link_end(ino, x));
    }
}

/// If the name cannot be entered the file has as many names as before.
pub proof fn law_link_undone(s: FsState, ino: Inode, e: SysError, d: InodeData)
    requires
        s.lock(ino) matches Some((b, x)) && x == d && b.inner.len() == NINODE && b.locked.len()
            == NINODE && b.store.sized(),
        ino.id < NINODE,
        d.valid,
        d.addrs.len() == NADDRS,
        s.link_end(ino, Err(e)) is Some,
    ensures
        (s.link_end(ino, Err(e))->0).1 == Err::<u64, SysError>(e),
        exists|u: FsState| #[trigger]
            has_links(u, ino, d.nlink - 1) && u.put(ino) == Some((s.link_end(ino, Err(e))->0).0),
{
    let (b, _) = s.lock(ino)->0;
    law_relink(b, ino, d, -1);
    let u = b.relink_locked(ino, d, -1)->0;
    assert(has_links(u, ino, d.nlink - 1));
}

/// A file whose name was removed has one name less, on the disk and for whoever gives it back.
pub proof fn law_unlink_counts(s: FsState, ino: Inode, d: InodeData)
    requires
        s.inner.len() == NINODE,
        s.locked.len() == NINODE,
        ino.id < NINODE,
        d.valid,
        d.addrs.len() == NADDRS,
        s.store.sized(),
        s.unlink_inode(ino, d) is Some,
    ensures
        (s.unlink_inode(ino, d)->0).1 == Ok::<u64, SysError>(0),
        exists|u: FsState| #[trigger]
            has_links(u, ino, d.nlink - 1) && u.put(ino) == Some((s.unlink_inode(ino, d)->0).0),
{
    law_relink(s, ino, d, -1);
    let u = s.relink_locked(ino, d, -1)->0;
    assert(has_links(u, ino, d.nlink - 1));
}

/// A file that is asked for and is there already is the one that is given; anything else of that name
/// is an error.
pub proof fn law_create_existing(
    s: FsState,
    path: Seq<u8>,
    cwd: Inode,
    typ: InodeType,
    major: u16,
    minor: u16,
    ino: Inode,
    d: InodeData,
)
    requires
        s.resolve(path, cwd, true) matches Some((a, Ok((parent, name)))) && (a.lock(
            parent,
        ) matches Some((b, pd)) && (b.dir_lookup(parent, pd, name) matches Some(
            (c, qd, Ok(Some((_, i)))),
        ) && i == ino && (c.unlock_put(parent, qd) matches Some(e) && (e.lock(ino) matches Some(
            (f, x),
        ) && x == d)))),
        s.create(path, cwd, typ, major, minor) is Some,
    ensures
        ({
            let (t, r) = s.create(path, cwd, typ, major, minor)->0;
            if typ == InodeType::File && d.typ != InodeType::Directory && d.typ != InodeType::Free {
                r == Ok::<(Inode, InodeData), FsError>((ino, d))
            } else {
                r == Err::<(Inode, InodeData), FsError>(FsError::Create)
            }
        }),
{
}

/// The directory `e`, which is `parent`, has no entry `name` in `u`.
pub open spec fn without(u: FsState, parent: Inode, e: InodeData, name: Seq<u8>) -> bool {
    &&& dir_ok(u.store, u.sb, parent.dev, e, u.sb.inode_block(parent.inum))
    &&& forall|o: int| !#[trigger] names_at(u.store, parent.dev, e, name, o)
}

/// The directory `e`, which is `parent`, has an entry `name` for inode `inum` in `u`.
pub open spec fn entered(u: FsState, parent: Inode, e: InodeData, name: Seq<u8>, inum: u16) -> bool {
    exists|o: u32| #[trigger] looks_up(u.store, u.sb, parent.dev, e, name, Some((o, inum)))
}

/// Removing the name of a file: the directory has no such name any more, and then the inode that it
/// stood for, and no other, loses a link.
pub proof fn law_unlink_removes(
    s: FsState,
    parent: Inode,
    pd: InodeData,
    name: Seq<u8>,
    inum: u16,
    at: u32,
    ino: Inode,
    d: InodeData,
)
    requires
        dir_ok(s.store, s.sb, parent.dev, pd, s.sb.inode_block(parent.inum)),
        linked_at(s.store, parent.dev, pd, name, inum, at),
        !is_dots(name),
        s.dir_lookup(parent, pd, name) matches Some((a, _, Ok(Some((_, i))))) && i == ino && (a.lock(
            ino,
        ) matches Some((_, x)) && x == d),
        d.typ != InodeType::Directory,
        s.unlink_name(parent, pd, name) matches Some((_, Ok(_))),
    ensures
        ino.inum == inum,
        ino.dev == parent.dev,
        exists|u: FsState, e: InodeData| #[trigger]
            without(u, parent, e, name) && s.unlink_name(parent, pd, name) == u.unlink_counts(
                parent,
                e,
                ino,
                d,
            ),
{
    let dev = parent.dev;
    let (a, qd, _) = s.dir_lookup(parent, pd, name)->0;
    assert(a.store == s.store && a.sb == s.sb && qd == pd && ino.inum == inum && ino.dev == dev
        && (s.dir_lookup(parent, pd, name)->0).2 == Ok::<Option<(u32, Inode)>, FsError>(
        Some((at, ino)),
    )) by {
        reveal(FsState::dir_lookup);
        reveal(FsState::get);
        reveal(unnamed);
        law_lookup(s.store, s.sb, dev, pd, s.sb.inode_block(parent.inum), name, 0);
        assert(names_at(s.store, dev, pd, name, at as int));
        reveal(names_at);
    }
    let (b, _) = a.lock(ino)->0;
    assert(b.store == s.store && b.sb == s.sb) by {
        reveal(FsState::lock);
    }
    assert(s.unlink_name(parent, pd, name) == b.unlink_entry(parent, pd, ino, d, at));
    let entry = (DirEntry { inum: 0, name: padded(seq![]) }).bytes();
    law_name_removed(s.store, s.sb, dev, parent.inum, pd, name, at, name);
    let (st, e, n) = s.store.write_inode(s.sb, dev, parent.inum, pd, at, entry)->0;
    let u = b.with_store(st);
    assert(without(u, parent, e, name));
}

/// A new file is entered in its directory under its name, and can then be looked up there.
pub proof fn law_created(
    s: FsState,
    parent: Inode,
    pd: InodeData,
    name: Seq<u8>,
    ino: Inode,
    d: InodeData,
    typ: InodeType,
)
    requires
        dir_ok(s.store, s.sb, parent.dev, pd, s.sb.inode_block(parent.inum)),
        name.len() <= DIRSIZE,
        !name.contains(0u8),
        0 < ino.inum <= u16::MAX,
        typ != InodeType::Directory,
        forall|o: int| !#[trigger] names_at(s.store, parent.dev, pd, name, o),
        s.create_link(parent, pd, name, ino, d, typ) matches Some((_, Ok(_))),
    ensures
        (s.create_link(parent, pd, name, ino, d, typ)->0).1 == Ok::<(Inode, InodeData), FsError>(
            (ino, d),
        ),
        exists|u: FsState, e: InodeData| #[trigger]
            entered(u, parent, e, name, ino.inum as u16) && u.unlock_put(parent, e) == Some(
                (s.create_link(parent, pd, name, ino, d, typ)->0).0,
            ),
{
    reveal(FsState::create_link);
    reveal(FsState::dir_link);
    let inum = ino.inum as u16;
    lemma_not_there(s, parent, pd, name);
    assert(s.dir_link(parent, pd, name, inum) == s.dir_add(parent, pd, name, inum));
    let (u, e, r) = s.dir_add(parent, pd, name, inum)->0;
    if r is Err {
        reveal(FsState::create_fail);
    }
    assert(r is Ok);
    law_link_then_lookup(s, parent, pd, name, inum);
    let found = u.store.find_entry(u.sb, parent.dev, e, name, 0, e.size as int);
    let o = choose|o: u32| found == #[trigger] found_at(u.store, e, o, inum);
    assert(looks_up(u.store, u.sb, parent.dev, e, name, Some((o, inum))));
    assert(entered(u, parent, e, name, inum));
}

/// Every inode is looked at when files without names are reclaimed: reclaiming the first ones and then
/// the others is reclaiming all of them.
pub proof fn law_reclaim_parts(s: FsState, dev: u32, from: int, mid: int, to: int)
    requires
        from <= mid <= to,
    ensures
        s.reclaim_from(dev, from, to) == (match s.reclaim_from(dev, from, mid) {
            None => None::<FsState>,
            Some(t) => t.reclaim_from(dev, mid, to),
        }),
    decreases mid - from,
{
    if from < mid {
        if s.disk_ok(dev, from as u32) {
            if s.orphan(dev, from as u32) {
                match s.get(dev, from as u32) {
                    None => {},
                    Some((t, Err(_))) => {
                        law_reclaim_parts(t, dev, from + 1, mid, to);
                    },
                    Some((t, Ok(ino))) => {
                        if let Some(u) = t.reclaim_one(ino) {
                            law_reclaim_parts(u, dev, from + 1, mid, to);
                        }
                    },
                }
            } else {
                law_reclaim_parts(s, dev, from + 1, mid, to);
            }
        }
    } else {
        assert(s.reclaim_from(dev, from, mid) == Some(s));
    }
}

/// Of one inode, only a file without names is reclaimed: its reference is dropped, which frees it.
/// Any other one stays as it is.
pub proof fn law_reclaim_one(s: FsState, dev: u32, inum: u32)
    requires
        s.disk_ok(dev, inum),
    ensures
        !s.orphan(dev, inum) ==> s.reclaim_from(dev, inum as int, inum + 1) == Some(s),
        s.orphan(dev, inum) && s.reclaim_from(dev, inum as int, inum + 1) is Some ==> match s.get(
            dev,
            inum,
        ) {
            Some((t, Ok(ino))) => t.reclaim_one(ino) == s.reclaim_from(dev, inum as int, inum + 1)
                && ino.inum == inum && ino.dev == dev,
            _ => true,
        },
{
    reveal(FsState::get);
    reveal_with_fuel(FsState::reclaim_from, 2);
}

} // verus!
