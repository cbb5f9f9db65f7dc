//! What holds of directories.
use vstd::prelude::*;
use crate::fs::dir::{padded, DirEntry, Directory};
use crate::fs::inode::{Inode, InodeData, InodeType};
use crate::fs::laws::{
    addr_of,
    allotted,
    byte_of,
    bytes_of,
    law_read,
    law_new_file,
    law_new_file_quiet,
    law_read_after_write,
    mapped,
    quiet,
    tidy,
    wrote,
};
use crate::fs::table::FsState;
use crate::fs::{FsError, SuperBlock, DIRSIZE, MAXFILE, NADDRS};
use crate::le::{lemma_u16_at, u16_bytes};
use crate::log::{StoreState, MAXHELD};
use crate::param::NINODE;
use crate::virtio_disk::BSIZE;

verus! {

/// The directory `d` is tidy, without holes, made of whole entries, and not in use by someone else.
#[verifier::opaque]
pub open spec fn dir_ok(s: StoreState, sb: SuperBlock, dev: u32, d: InodeData, ibk: u32) -> bool {
    &&& tidy(s, sb, dev, d, ibk)
    &&& quiet(s, dev, d)
    &&& d.typ == InodeType::Directory
    &&& d.size as int % (Directory::SIZE as int) == 0
    &&& d.size <= MAXFILE * BSIZE
    &&& mapped(s, dev, d, 0, (d.size + BSIZE - 1) / (BSIZE as int))
}

/// The entry at `offset` of the directory `d`.
pub open spec fn entry_at(s: StoreState, dev: u32, d: InodeData, offset: int) -> DirEntry {
    DirEntry::of(bytes_of(s, dev, d, offset, offset + Directory::SIZE))
}

/// The directory `d` has the entry `name` at `offset`.
#[verifier::opaque]
pub open spec fn names_at(s: StoreState, dev: u32, d: InodeData, name: Seq<u8>, offset: int) -> bool {
    &&& 0 <= offset < d.size
    &&& offset % (Directory::SIZE as int) == 0
    &&& entry_at(s, dev, d, offset).inum != 0
    &&& entry_at(s, dev, d, offset).is_named(name)
}

pub(crate) proof fn lemma_read_entry(
    s: StoreState,
    sb: SuperBlock,
    dev: u32,
    d: InodeData,
    ibk: u32,
    offset: int,
)
    requires
        dir_ok(s, sb, dev, d, ibk),
        0 <= offset < d.size,
        offset % (Directory::SIZE as int) == 0,
    ensures
        s.read_entry(sb, dev, d, offset as u32) == Some(
            (s, d, Ok::<DirEntry, FsError>(entry_at(s, dev, d, offset))),
        ),
        offset + Directory::SIZE <= d.size,
{
    reveal(dir_ok);
    reveal(tidy);
    reveal(allotted);
    law_read(s, sb, dev, d, offset as u32, Directory::SIZE as u32);
}

/// One step of the search for `name`.
proof fn lemma_find_step(
    s: StoreState,
    sb: SuperBlock,
    dev: u32,
    d: InodeData,
    ibk: u32,
    name: Seq<u8>,
    offset: int,
)
    requires
        dir_ok(s, sb, dev, d, ibk),
        0 <= offset < d.size,
        offset % (Directory::SIZE as int) == 0,
    ensures
        s.find_entry(sb, dev, d, name, offset, d.size as int) == (if names_at(
            s,
            dev,
            d,
            name,
            offset,
        ) {
            found_at(s, d, offset as u32, entry_at(s, dev, d, offset).inum)
        } else {
            s.find_entry(sb, dev, d, name, offset + Directory::SIZE, d.size as int)
        }),
        offset + Directory::SIZE <= d.size,
{
    reveal(names_at);
    lemma_read_entry(s, sb, dev, d, ibk, offset);
}

/// There is no entry `name` from `from` up to `to`.
#[verifier::opaque]
pub open spec fn unnamed(
    s: StoreState,
    dev: u32,
    d: InodeData,
    name: Seq<u8>,
    from: int,
    to: int,
) -> bool {
    forall|o: int| from <= o < to ==> !#[trigger] names_at(s, dev, d, name, o)
}

proof fn lemma_unnamed(
    s: StoreState,
    dev: u32,
    d: InodeData,
    name: Seq<u8>,
    offset: int,
    to: int,
)
    requires
        offset % (Directory::SIZE as int) == 0,
        !names_at(s, dev, d, name, offset),
        unnamed(s, dev, d, name, offset + Directory::SIZE, to),
    ensures
        unnamed(s, dev, d, name, offset, to),
{
    reveal(unnamed);
    reveal(names_at);
    assert forall|o: int| offset <= o < to implies !#[trigger] names_at(s, dev, d, name, o) by {
        if offset < o < offset + Directory::SIZE {
            assert(o % (Directory::SIZE as int) != 0);
        }
    }
}

/// Looking a name up in a tidy directory finds the first entry with that name, or says that there
/// is none; nothing changes.
pub proof fn law_lookup(
    s: StoreState,
    sb: SuperBlock,
    dev: u32,
    d: InodeData,
    ibk: u32,
    name: Seq<u8>,
    offset: int,
)
    requires
        dir_ok(s, sb, dev, d, ibk),
        0 <= offset <= d.size,
        offset % (Directory::SIZE as int) == 0,
    ensures
        ({
            let found = s.find_entry(sb, dev, d, name, offset, d.size as int);
            ||| found == Some((s, d, Ok::<Option<(u32, u16)>, FsError>(None))) && unnamed(
                s,
                dev,
                d,
                name,
                offset,
                d.size as int,
            )
            ||| exists|o: int| #[trigger]
                names_at(s, dev, d, name, o) && offset <= o && found == found_at(
                    s,
                    d,
                    o as u32,
                    entry_at(s, dev, d, o).inum,
                ) && unnamed(s, dev, d, name, offset, o)
        }),
    decreases d.size - offset,
{
    if offset < d.size {
        lemma_find_step(s, sb, dev, d, ibk, name, offset);
        if names_at(s, dev, d, name, offset) {
            assert(unnamed(s, dev, d, name, offset, offset)) by {
                reveal(unnamed);
            }
        } else {
            let next = offset + Directory::SIZE;
            law_lookup(s, sb, dev, d, ibk, name, next);
            let found = s.find_entry(sb, dev, d, name, next, d.size as int);
            if found == Some((s, d, Ok::<Option<(u32, u16)>, FsError>(None))) {
                lemma_unnamed(s, dev, d, name, offset, d.size as int);
            } else {
                let o = choose|o: int| #[trigger]
                    names_at(s, dev, d, name, o) && next <= o && found == found_at(
                        s,
                        d,
                        o as u32,
                        entry_at(s, dev, d, o).inum,
                    ) && unnamed(s, dev, d, name, next, o);
                lemma_unnamed(s, dev, d, name, offset, o);
            }
        }
    } else {
        assert(unnamed(s, dev, d, name, offset, d.size as int)) by {
            reveal(unnamed);
        }
    }
}

/// The directory `d` has a free entry at `offset`.
pub open spec fn free_at(s: StoreState, dev: u32, d: InodeData, offset: int) -> bool {
    &&& 0 <= offset < d.size
    &&& offset % (Directory::SIZE as int) == 0
    &&& entry_at(s, dev, d, offset).inum == 0
}

/// `at` is the first free entry from `from` on, or the end of the directory if there is none.
#[verifier::opaque]
pub open spec fn first_free(s: StoreState, dev: u32, d: InodeData, from: int, at: int) -> bool {
    &&& at < d.size ==> free_at(s, dev, d, at)
    &&& forall|o: int| from <= o < at ==> !#[trigger] free_at(s, dev, d, o)
}

proof fn lemma_find_slot(
    s: StoreState,
    sb: SuperBlock,
    dev: u32,
    d: InodeData,
    ibk: u32,
    offset: int,
)
    requires
        dir_ok(s, sb, dev, d, ibk),
        0 <= offset <= d.size,
        offset % (Directory::SIZE as int) == 0,
    ensures
        ({
            let (t, e, r) = s.find_slot(sb, dev, d, offset, d.size as int)->0;
            &&& s.find_slot(sb, dev, d, offset, d.size as int) is Some
            &&& t == s && e == d && r is Ok
            &&& offset <= r->Ok_0 <= d.size
            &&& r->Ok_0 as int % (Directory::SIZE as int) == 0
            &&& first_free(s, dev, d, offset, r->Ok_0 as int)
        }),
    decreases d.size - offset,
{
    reveal(first_free);
    if offset < d.size {
        lemma_read_entry(s, sb, dev, d, ibk, offset);
        if entry_at(s, dev, d, offset).inum != 0 {
            lemma_find_slot(s, sb, dev, d, ibk, offset + Directory::SIZE);
            let (_, _, r) = s.find_slot(sb, dev, d, offset, d.size as int)->0;
            assert forall|o: int| offset <= o < r->Ok_0 implies !#[trigger] free_at(s, dev, d, o) by {
                if offset < o < offset + Directory::SIZE {
                    assert(o % (Directory::SIZE as int) != 0);
                }
            }
        }
    }
}

/// An entry reads back as it was written, name included.
pub(crate) proof fn lemma_entry_roundtrip(inum: u16, name: Seq<u8>)
    requires
        name.len() <= DIRSIZE,
        !name.contains(0u8),
    ensures
        ({
            let e = DirEntry { inum, name: padded(name) };
            DirEntry::of(e.bytes()) == e && e.is_named(name) && e.bytes().len() == Directory::SIZE
        }),
{
    let e = DirEntry { inum, name: padded(name) };
    let b = e.bytes();
    assert(b.subrange(0, 2) =~= u16_bytes(inum));
    lemma_u16_at(b, 0, inum);
    assert(b.subrange(2, 16) =~= padded(name));
    assert(padded(name).take(name.len() as int) =~= name);
}

/// A file without holes has none after a write that starts no later than its end.
proof fn lemma_no_holes(
    s: StoreState,
    t: StoreState,
    dev: u32,
    d: InodeData,
    e: InodeData,
    at: int,
    src: Seq<u8>,
)
    requires
        d.size <= MAXFILE * BSIZE,
        mapped(s, dev, d, 0, (d.size + BSIZE - 1) / (BSIZE as int)),
        0 <= at <= d.size,
        0 < src.len(),
        at + src.len() <= MAXFILE * BSIZE,
        wrote(s, InodeData { size: e.size, ..d }, t, e, dev, at, src),
        e.size == (if at + src.len() > d.size {
            at + src.len()
        } else {
            d.size as int
        }),
    ensures
        mapped(t, dev, e, 0, (e.size + BSIZE - 1) / (BSIZE as int)),
{
    reveal(wrote);
    let d2 = InodeData { size: e.size, ..d };
    assert forall|bn: int| 0 <= bn < (e.size + BSIZE - 1) / (BSIZE as int) implies #[trigger] addr_of(
        t,
        dev,
        e,
        bn,
    ) != 0 by {
        if bn < (d.size + BSIZE - 1) / (BSIZE as int) {
            assert(addr_of(s, dev, d, bn) != 0);
            assert(addr_of(s, dev, d2, bn) == addr_of(s, dev, d, bn));
        } else {
            let i = if at / (BSIZE as int) == bn {
                at
            } else {
                bn * BSIZE
            };
            assert(i / (BSIZE as int) == bn);
            assert(at <= i < at + src.len());
            assert(byte_of(t, dev, e, i) == src[i - at]);
        }
    }
}

/// A write leaves the bytes of a file without holes alone that lie beside it.
pub(crate) proof fn lemma_bytes_beside(
    s: StoreState,
    t: StoreState,
    dev: u32,
    d: InodeData,
    e: InodeData,
    at: int,
    src: Seq<u8>,
    from: int,
    to: int,
)
    requires
        d.size <= MAXFILE * BSIZE,
        mapped(s, dev, d, 0, (d.size + BSIZE - 1) / (BSIZE as int)),
        wrote(s, InodeData { size: e.size, ..d }, t, e, dev, at, src),
        0 <= from <= to <= d.size,
        to <= at || at + src.len() <= from,
    ensures
        bytes_of(t, dev, e, from, to) == bytes_of(s, dev, d, from, to),
{
    reveal(wrote);
    let d2 = InodeData { size: e.size, ..d };
    assert forall|i: int| from <= i < to implies #[trigger] byte_of(t, dev, e, i) == byte_of(
        s,
        dev,
        d,
        i,
    ) by {
        let j = i / (BSIZE as int);
        assert(0 <= j < (d.size + BSIZE - 1) / (BSIZE as int));
        assert(addr_of(s, dev, d, j) != 0);
        assert(addr_of(s, dev, d2, j) == addr_of(s, dev, d, j));
        assert(byte_of(s, dev, d2, i) == byte_of(s, dev, d, i));
    }
    assert(bytes_of(t, dev, e, from, to) =~= bytes_of(s, dev, d, from, to));
}

/// What was written is there.
pub(crate) proof fn lemma_bytes_written(
    s: StoreState,
    t: StoreState,
    dev: u32,
    d: InodeData,
    e: InodeData,
    at: int,
    src: Seq<u8>,
)
    requires
        wrote(s, d, t, e, dev, at, src),
    ensures
        bytes_of(t, dev, e, at, at + src.len()) == src,
{
    reveal(wrote);
    assert forall|i: int| 0 <= i < src.len() implies #[trigger] byte_of(t, dev, e, at + i) == src[i] by {}
    assert(bytes_of(t, dev, e, at, at + src.len()) =~= src);
}

/// The entry `name` for `inum` was written to the directory `d` at `at`: the first free place, or
/// behind the last entry if none was free.
#[verifier::opaque]
spec fn placed(
    s: StoreState,
    t: StoreState,
    dev: u32,
    d: InodeData,
    e: InodeData,
    name: Seq<u8>,
    inum: u16,
    at: u32,
) -> bool {
    &&& d.size <= MAXFILE * BSIZE
    &&& d.size as int % (Directory::SIZE as int) == 0
    &&& mapped(s, dev, d, 0, (d.size + BSIZE - 1) / (BSIZE as int))
    &&& name.len() <= DIRSIZE
    &&& !name.contains(0u8)
    &&& at <= d.size
    &&& at as int % (Directory::SIZE as int) == 0
    &&& first_free(s, dev, d, 0, at as int)
    &&& wrote(
        s,
        InodeData { size: e.size, ..d },
        t,
        e,
        dev,
        at as int,
        (DirEntry { inum, name: padded(name) }).bytes(),
    )
    &&& e.size == (if at + Directory::SIZE > d.size {
        at + Directory::SIZE
    } else {
        d.size as int
    })
}

/// Writing the entry `name` at the place `at` of a directory without that name makes `at` the one
/// place with that name.
proof fn lemma_added(
    s: StoreState,
    t: StoreState,
    dev: u32,
    d: InodeData,
    e: InodeData,
    name: Seq<u8>,
    inum: u16,
    at: u32,
)
    requires
        placed(s, t, dev, d, e, name, inum, at),
        inum != 0,
        forall|o: int| !#[trigger] names_at(s, dev, d, name, o),
    ensures
        names_at(t, dev, e, name, at as int),
        entry_at(t, dev, e, at as int).inum == inum,
        forall|o: int| #[trigger] names_at(t, dev, e, name, o) ==> o == at,
{
    reveal(names_at);
    reveal(placed);
    reveal(first_free);
    let entry = DirEntry { inum, name: padded(name) };
    lemma_entry_roundtrip(inum, name);
    let src = entry.bytes();
    let d2 = InodeData { size: e.size, ..d };
    lemma_bytes_written(s, t, dev, d2, e, at as int, src);
    assert forall|o: int| #[trigger] names_at(t, dev, e, name, o) implies o == at by {
        if o != at {
            assert(o + Directory::SIZE <= at || at + Directory::SIZE <= o);
            assert(o + Directory::SIZE <= d.size);
            lemma_bytes_beside(s, t, dev, d, e, at as int, src, o, o + Directory::SIZE);
            assert(names_at(s, dev, d, name, o));
        }
    }
}

/// The entries `name` of the directory, where they are and for which inodes, are the same in `d` and
/// in `e`.
#[verifier::opaque]
pub open spec fn same_names(
    s: StoreState,
    d: InodeData,
    t: StoreState,
    e: InodeData,
    dev: u32,
    name: Seq<u8>,
) -> bool {
    forall|o: int|
        #![trigger names_at(s, dev, d, name, o)]
        #![trigger names_at(t, dev, e, name, o)]
        names_at(t, dev, e, name, o) == names_at(s, dev, d, name, o) && (names_at(
            s,
            dev,
            d,
            name,
            o,
        ) ==> entry_at(t, dev, e, o).inum == entry_at(s, dev, d, o).inum)
}

/// An entry has one name.
proof fn lemma_one_name(inum: u16, name: Seq<u8>, other: Seq<u8>)
    requires
        name.len() <= DIRSIZE,
        !name.contains(0u8),
        (DirEntry { inum, name: padded(name) }).is_named(other),
    ensures
        other == name,
{
    let p = padded(name);
    let n = other.len() as int;
    assert(forall|i: int| 0 <= i < n ==> other[i] == p.take(n)[i]);
    if n > name.len() {
        assert(p[name.len() as int] == 0);
        assert(other[name.len() as int] == 0);
        assert(other.contains(0u8));
    } else if n < name.len() {
        assert(name[n] == p[n] == 0);
        assert(name.contains(0u8));
    }
    assert(other =~= name);
}

/// Writing the entry `name` in a free place of a directory leaves the entries of other names.
proof fn lemma_beside(
    s: StoreState,
    t: StoreState,
    dev: u32,
    d: InodeData,
    e: InodeData,
    name: Seq<u8>,
    inum: u16,
    at: u32,
    other: Seq<u8>,
)
    requires
        placed(s, t, dev, d, e, name, inum, at),
        other != name,
    ensures
        same_names(s, d, t, e, dev, other),
{
    reveal(same_names);
    reveal(names_at);
    reveal(placed);
    reveal(first_free);
    let entry = DirEntry { inum, name: padded(name) };
    lemma_entry_roundtrip(inum, name);
    let src = entry.bytes();
    let d2 = InodeData { size: e.size, ..d };
    lemma_bytes_written(s, t, dev, d2, e, at as int, src);
    assert(!entry_at(t, dev, e, at as int).is_named(other)) by {
        if entry.is_named(other) {
            lemma_one_name(inum, name, other);
        }
    }
    assert forall|o: int|
        0 <= o < e.size && o % (Directory::SIZE as int) == 0 && o != at implies #[trigger] entry_at(
        t,
        dev,
        e,
        o,
    ) == entry_at(s, dev, d, o) && o < d.size by {
        assert(o + Directory::SIZE <= at || at + Directory::SIZE <= o);
        assert(o + Directory::SIZE <= d.size);
        lemma_bytes_beside(s, t, dev, d, e, at as int, src, o, o + Directory::SIZE);
    }
    assert forall|o: int|
        #![trigger names_at(s, dev, d, other, o)]
        #![trigger names_at(t, dev, e, other, o)]
        names_at(t, dev, e, other, o) == names_at(s, dev, d, other, o) && (names_at(
            s,
            dev,
            d,
            other,
            o,
        ) ==> entry_at(t, dev, e, o).inum == entry_at(s, dev, d, o).inum) by {
        if o != at && 0 <= o < e.size && o % (Directory::SIZE as int) == 0 {
            assert(entry_at(t, dev, e, o) == entry_at(s, dev, d, o));
        }
    }
}

/// The same for all other names.
proof fn lemma_all_beside(
    s: StoreState,
    t: StoreState,
    dev: u32,
    d: InodeData,
    e: InodeData,
    name: Seq<u8>,
    inum: u16,
    at: u32,
)
    requires
        placed(s, t, dev, d, e, name, inum, at),
    ensures
        forall|other: Seq<u8>|
            other != name ==> #[trigger] same_names(s, d, t, e, dev, other),
{
    assert forall|other: Seq<u8>| other != name implies #[trigger] same_names(
        s,
        d,
        t,
        e,
        dev,
        other,
    ) by {
        lemma_beside(s, t, dev, d, e, name, inum, at, other);
    }
}

/// Looking `name` up in the directory `d` gives `found`, and changes nothing.
pub open spec fn looks_up(
    s: StoreState,
    sb: SuperBlock,
    dev: u32,
    d: InodeData,
    name: Seq<u8>,
    found: Option<(u32, u16)>,
) -> bool {
    s.find_entry(sb, dev, d, name, 0, d.size as int) == Some(
        (s, d, Ok::<Option<(u32, u16)>, FsError>(found)),
    )
}

/// Where the entries of a name are the same, looking it up gives the same.
proof fn lemma_same_lookup(
    s: StoreState,
    d: InodeData,
    t: StoreState,
    e: InodeData,
    sb: SuperBlock,
    dev: u32,
    ibk: u32,
    name: Seq<u8>,
)
    requires
        dir_ok(s, sb, dev, d, ibk),
        dir_ok(t, sb, dev, e, ibk),
        same_names(s, d, t, e, dev, name),
    ensures
        exists|found: Option<(u32, u16)>|
            looks_up(s, sb, dev, d, name, found) && #[trigger] looks_up(
                t,
                sb,
                dev,
                e,
                name,
                found,
            ),
{
    reveal(same_names);
    reveal(unnamed);
    law_lookup(s, sb, dev, d, ibk, name, 0);
    law_lookup(t, sb, dev, e, ibk, name, 0);
    if exists|o: int| #[trigger] names_at(s, dev, d, name, o) {
        let w = choose|o: int| #[trigger] names_at(s, dev, d, name, o);
        assert(names_at(t, dev, e, name, w));
        assert(0 <= w < d.size && w < e.size) by {
            reveal(names_at);
        }
        let a = choose|o: int| #[trigger]
            names_at(s, dev, d, name, o) && 0 <= o && s.find_entry(
                sb,
                dev,
                d,
                name,
                0,
                d.size as int,
            ) == found_at(s, d, o as u32, entry_at(s, dev, d, o).inum) && unnamed(
                s,
                dev,
                d,
                name,
                0,
                o,
            );
        let b = choose|o: int| #[trigger]
            names_at(t, dev, e, name, o) && 0 <= o && t.find_entry(
                sb,
                dev,
                e,
                name,
                0,
                e.size as int,
            ) == found_at(t, e, o as u32, entry_at(t, dev, e, o).inum) && unnamed(
                t,
                dev,
                e,
                name,
                0,
                o,
            );
        assert(names_at(s, dev, d, name, b) && names_at(t, dev, e, name, a));
        assert(a == b);
        assert(looks_up(t, sb, dev, e, name, Some((a as u32, entry_at(s, dev, d, a).inum))));
    } else {
        assert(forall|o: int| !#[trigger] names_at(t, dev, e, name, o)) by {
            assert forall|o: int| !#[trigger] names_at(t, dev, e, name, o) by {
                assert(!names_at(s, dev, d, name, o));
            }
        }
        assert(looks_up(t, sb, dev, e, name, None));
    }
}

/// After `name` was added to a tidy directory that had no such entry, looking it up gives the
/// inode number it was added for, and the directory is still tidy. It is larger by one entry if
/// none was free, and else as large as it was.
pub proof fn law_link_then_lookup(
    s: FsState,
    ino: Inode,
    d: InodeData,
    name: Seq<u8>,
    inum: u16,
)
    requires
        dir_ok(s.store, s.sb, ino.dev, d, s.sb.inode_block(ino.inum)),
        inum != 0,
        name.len() <= DIRSIZE,
        !name.contains(0u8),
        forall|o: int| !#[trigger] names_at(s.store, ino.dev, d, name, o),
        s.dir_add(ino, d, name, inum) is Some,
        (s.dir_add(ino, d, name, inum)->0).2 is Ok,
    ensures
        ({
            let (t, e, r) = s.dir_add(ino, d, name, inum)->0;
            let found = t.store.find_entry(t.sb, ino.dev, e, name, 0, e.size as int);
            &&& dir_ok(t.store, t.sb, ino.dev, e, t.sb.inode_block(ino.inum))
            &&& exists|o: u32| found == #[trigger] found_at(t.store, e, o, inum)
            &&& e.size == d.size + (if exists|o: int| free_at(s.store, ino.dev, d, o) {
                0
            } else {
                Directory::SIZE as int
            })
        }),
{
    lemma_linked(s, ino, d, name, inum);
    let dev = ino.dev;
    let (t, e, r) = s.dir_add(ino, d, name, inum)->0;
    let at = choose|at: u32| #[trigger] linked_at(t.store, dev, e, name, inum, at);
    law_lookup(t.store, t.sb, dev, e, t.sb.inode_block(ino.inum), name, 0);
    let found = t.store.find_entry(t.sb, dev, e, name, 0, e.size as int);
    assert(!unnamed(t.store, dev, e, name, 0, e.size as int)) by {
        reveal(unnamed);
        reveal(names_at);
        assert(names_at(t.store, dev, e, name, at as int));
    }
    assert(found == found_at(t.store, e, at, inum));
}

/// Adding `name` to a tidy directory leaves every other name as it was: looking it up gives the same
/// before and after.
pub proof fn law_link_keeps_others(
    s: FsState,
    ino: Inode,
    d: InodeData,
    name: Seq<u8>,
    inum: u16,
    other: Seq<u8>,
)
    requires
        dir_ok(s.store, s.sb, ino.dev, d, s.sb.inode_block(ino.inum)),
        inum != 0,
        name.len() <= DIRSIZE,
        !name.contains(0u8),
        forall|o: int| !#[trigger] names_at(s.store, ino.dev, d, name, o),
        s.dir_add(ino, d, name, inum) is Some,
        (s.dir_add(ino, d, name, inum)->0).2 is Ok,
        other != name,
    ensures
        ({
            let (t, e, r) = s.dir_add(ino, d, name, inum)->0;
            exists|found: Option<(u32, u16)>|
                looks_up(s.store, s.sb, ino.dev, d, other, found) && #[trigger] looks_up(
                    t.store,
                    t.sb,
                    ino.dev,
                    e,
                    other,
                    found,
                )
        }),
{
    lemma_linked(s, ino, d, name, inum);
    let (t, e, r) = s.dir_add(ino, d, name, inum)->0;
    assert(t.sb == s.sb) by {
        reveal(FsState::dir_add);
    }
    lemma_same_lookup(
        s.store,
        d,
        t.store,
        e,
        s.sb,
        ino.dev,
        s.sb.inode_block(ino.inum),
        other,
    );
}

/// No two entries of the directory `d` have the same name.
pub open spec fn names_unique(s: StoreState, dev: u32, d: InodeData) -> bool {
    forall|name: Seq<u8>, a: int, b: int|
        #![trigger names_at(s, dev, d, name, a), names_at(s, dev, d, name, b)]
        names_at(s, dev, d, name, a) && names_at(s, dev, d, name, b) ==> a == b
}

/// Linking keeps names unique. A name that is there already is refused with `Link`, and neither the
/// directory nor any other block changes, nor does the count of references to any inode. A name that
/// is not there is added.
pub proof fn law_link_unique(s: FsState, ino: Inode, d: InodeData, name: Seq<u8>, inum: u16)
    requires
        dir_ok(s.store, s.sb, ino.dev, d, s.sb.inode_block(ino.inum)),
        inum != 0,
        name.len() <= DIRSIZE,
        !name.contains(0u8),
        s.meta.len() == NINODE,
        s.inner.len() == NINODE,
        s.dir_lookup(ino, d, name) matches Some((_, _, Ok(_))),
        s.dir_link(ino, d, name, inum) is Some,
    ensures
        ({
            let (t, e, r) = s.dir_link(ino, d, name, inum)->0;
            if exists|o: int| #[trigger] names_at(s.store, ino.dev, d, name, o) {
                &&& r == Err::<(), FsError>(FsError::Link)
                &&& t.store == s.store && e == d
                &&& forall|i: int|
                    0 <= i < NINODE ==> (#[trigger] t.meta[i]).refs == s.meta[i].refs
            } else {
                &&& s.dir_link(ino, d, name, inum) == s.dir_add(ino, d, name, inum)
                &&& r is Ok && names_unique(s.store, ino.dev, d) ==> names_unique(
                    t.store,
                    ino.dev,
                    e,
                )
            }
        }),
{
    let dev = ino.dev;
    let ibk = s.sb.inode_block(ino.inum);
    reveal(FsState::dir_lookup);
    reveal(FsState::dir_link);
    reveal(unnamed);
    law_lookup(s.store, s.sb, dev, d, ibk, name, 0);
    assert(s.with_store(s.store) == s);
    if exists|o: int| #[trigger] names_at(s.store, dev, d, name, o) {
        let w = choose|o: int| #[trigger] names_at(s.store, dev, d, name, o);
        assert(0 <= w < d.size) by {
            reveal(names_at);
        }
        let o = choose|o: int| #[trigger]
            names_at(s.store, dev, d, name, o) && 0 <= o && s.store.find_entry(
                s.sb,
                dev,
                d,
                name,
                0,
                d.size as int,
            ) == found_at(s.store, d, o as u32, entry_at(s.store, dev, d, o).inum) && unnamed(
                s.store,
                dev,
                d,
                name,
                0,
                o,
            );
        lemma_get_put(s, dev, entry_at(s.store, dev, d, o).inum as u32);
    } else {
        if (s.dir_link(ino, d, name, inum)->0).2 is Ok && names_unique(s.store, dev, d) {
            lemma_linked(s, ino, d, name, inum);
            let (t, e, r) = s.dir_add(ino, d, name, inum)->0;
            reveal(same_names);
            let at = choose|at: u32| #[trigger] linked_at(t.store, dev, e, name, inum, at);
            assert forall|m: Seq<u8>, a: int, b: int|
                #![trigger names_at(t.store, dev, e, m, a), names_at(t.store, dev, e, m, b)]
                names_at(t.store, dev, e, m, a) && names_at(t.store, dev, e, m, b) implies a == b by {
                if m != name {
                    assert(same_names(s.store, d, t.store, e, dev, m));
                    assert(names_at(s.store, dev, d, m, a) && names_at(s.store, dev, d, m, b));
                }
            }
        }
    }
}

/// Dropping a reference that was just taken leaves the count of every inode as it was, and changes
/// no block.
proof fn lemma_get_put(s: FsState, dev: u32, inum: u32)
    requires
        s.meta.len() == NINODE,
        s.inner.len() == NINODE,
        s.get(dev, inum) matches Some((_, Ok(_))),
    ensures
        ({
            let (t, r) = s.get(dev, inum)->0;
            t.put(r->Ok_0) matches Some(u) ==> {
                &&& u.store == s.store
                &&& forall|i: int|
                    0 <= i < NINODE ==> (#[trigger] u.meta[i]).refs == s.meta[i].refs
            }
        }),
{
    reveal(FsState::get);
    reveal(FsState::put);
}

/// What linking does. A name that is there already is refused with `Link`, and the directory is as it
/// was. A name that was linked is found with its inode number, every other name is looked up with the
/// same result as before, and the directory is larger by one entry if and only if none was free.
pub proof fn law_link(
    s: FsState,
    ino: Inode,
    d: InodeData,
    name: Seq<u8>,
    inum: u16,
    other: Seq<u8>,
)
    requires
        dir_ok(s.store, s.sb, ino.dev, d, s.sb.inode_block(ino.inum)),
        inum != 0,
        name.len() <= DIRSIZE,
        !name.contains(0u8),
        other != name,
        s.meta.len() == NINODE,
        s.inner.len() == NINODE,
        s.dir_lookup(ino, d, name) matches Some((_, _, Ok(_))),
        s.dir_link(ino, d, name, inum) is Some,
    ensures
        ({
            let (t, e, r) = s.dir_link(ino, d, name, inum)->0;
            if exists|o: int| #[trigger] names_at(s.store, ino.dev, d, name, o) {
                r == Err::<(), FsError>(FsError::Link) && t.store == s.store && e == d
            } else {
                r is Ok ==> {
                    &&& dir_ok(t.store, t.sb, ino.dev, e, t.sb.inode_block(ino.inum))
                    &&& exists|o: u32| #[trigger]
                        looks_up(t.store, t.sb, ino.dev, e, name, Some((o, inum)))
                    &&& exists|found: Option<(u32, u16)>|
                        looks_up(s.store, s.sb, ino.dev, d, other, found) && #[trigger] looks_up(
                            t.store,
                            t.sb,
                            ino.dev,
                            e,
                            other,
                            found,
                        )
                    &&& e.size == d.size + (if exists|o: int| free_at(s.store, ino.dev, d, o) {
                        0
                    } else {
                        Directory::SIZE as int
                    })
                    &&& names_unique(s.store, ino.dev, d) ==> names_unique(t.store, ino.dev, e)
                }
            }
        }),
{
    law_link_unique(s, ino, d, name, inum);
    let (t, e, r) = s.dir_link(ino, d, name, inum)->0;
    if !exists|o: int| #[trigger] names_at(s.store, ino.dev, d, name, o) {
        if r is Ok {
            law_link_then_lookup(s, ino, d, name, inum);
            law_link_keeps_others(s, ino, d, name, inum, other);
            let found = t.store.find_entry(t.sb, ino.dev, e, name, 0, e.size as int);
            let o = choose|o: u32| found == #[trigger] found_at(t.store, e, o, inum);
            assert(looks_up(t.store, t.sb, ino.dev, e, name, Some((o, inum))));
        }
    }
}

/// A directory that has no entries yet is one of which the laws on directories speak, and its names
/// are unique.
pub proof fn law_new_directory(s: StoreState, sb: SuperBlock, dev: u32, d: InodeData, ibk: u32)
    requires
        s.sized(),
        s.reserved(sb, dev),
        s.held.len() < MAXHELD,
        d.typ == InodeType::Directory,
        d.size == 0,
        d.addrs == Seq::new(NADDRS as nat, |i: int| 0u32),
        0 < ibk < sb.size,
        s.used(sb, dev, ibk),
        !s.is_bitmap(sb, ibk),
    ensures
        dir_ok(s, sb, dev, d, ibk),
        names_unique(s, dev, d),
{
    reveal(dir_ok);
    reveal(tidy);
    reveal(names_at);
    law_new_file(s, sb, dev, d);
    law_new_file_quiet(s, dev, d);
}

/// The only entry `name` of the directory `d` is at `at`, for the inode `inum`.
pub open spec fn linked_at(
    s: StoreState,
    dev: u32,
    d: InodeData,
    name: Seq<u8>,
    inum: u16,
    at: u32,
) -> bool {
    &&& names_at(s, dev, d, name, at as int)
    &&& entry_at(s, dev, d, at as int).inum == inum
    &&& forall|o: int| #[trigger] names_at(s, dev, d, name, o) ==> o == at
}

/// Adding an entry to a tidy directory writes it to a free place, and leaves the directory tidy.
proof fn lemma_placed(s: FsState, ino: Inode, d: InodeData, name: Seq<u8>, inum: u16)
    requires
        dir_ok(s.store, s.sb, ino.dev, d, s.sb.inode_block(ino.inum)),
        name.len() <= DIRSIZE,
        !name.contains(0u8),
        s.dir_add(ino, d, name, inum) is Some,
        (s.dir_add(ino, d, name, inum)->0).2 is Ok,
    ensures
        ({
            let (t, e, r) = s.dir_add(ino, d, name, inum)->0;
            &&& t.sb == s.sb
            &&& dir_ok(t.store, t.sb, ino.dev, e, t.sb.inode_block(ino.inum))
            &&& exists|at: u32| #[trigger] placed(s.store, t.store, ino.dev, d, e, name, inum, at)
        }),
{
    let dev = ino.dev;
    let ibk = s.sb.inode_block(ino.inum);
    assert({
        &&& d.size as int % (Directory::SIZE as int) == 0
        &&& d.size <= MAXFILE * BSIZE
        &&& mapped(s.store, dev, d, 0, (d.size + BSIZE - 1) / (BSIZE as int))
    }) by {
        reveal(dir_ok);
    }
    lemma_find_slot(s.store, s.sb, dev, d, ibk, 0);
    let (_, _, slot) = s.store.find_slot(s.sb, dev, d, 0, d.size as int)->0;
    let at = slot->Ok_0;
    let (t, e, r) = s.dir_add(ino, d, name, inum)->0;
    let src = (DirEntry { inum, name: padded(name) }).bytes();
    let w = s.store.write_inode(s.sb, dev, ino.inum, d, at, src);
    assert(w is Some && w->0 == (t.store, e, Ok::<u32, FsError>(Directory::SIZE as u32)) && t.sb
        == s.sb) by {
        reveal(FsState::dir_add);
    }
    assert(src.len() == Directory::SIZE) by {
        lemma_entry_roundtrip(inum, name);
    }
    law_entry_written(s.store, s.sb, dev, ino.inum, d, at, src);
    assert(placed(s.store, t.store, dev, d, e, name, inum, at)) by {
        reveal(placed);
    }
}

/// A directory stays one of which the laws on directories speak when an entry is written to it,
/// one that is added as well as one that is cleared.
pub proof fn law_entry_written(
    s: StoreState,
    sb: SuperBlock,
    dev: u32,
    inum: u32,
    d: InodeData,
    at: u32,
    src: Seq<u8>,
)
    requires
        dir_ok(s, sb, dev, d, sb.inode_block(inum)),
        at <= d.size,
        at as int % (Directory::SIZE as int) == 0,
        src.len() == Directory::SIZE,
        s.write_inode(sb, dev, inum, d, at, src) is Some,
        (s.write_inode(sb, dev, inum, d, at, src)->0).2 == Ok::<u32, FsError>(
            Directory::SIZE as u32,
        ),
    ensures
        ({
            let (t, e, _) = s.write_inode(sb, dev, inum, d, at, src)->0;
            &&& dir_ok(t, sb, dev, e, sb.inode_block(inum))
            &&& wrote(s, InodeData { size: e.size, ..d }, t, e, dev, at as int, src)
            &&& e.size == (if at + Directory::SIZE > d.size {
                at + Directory::SIZE
            } else {
                d.size as int
            })
        }),
{
    let ibk = sb.inode_block(inum);
    assert(tidy(s, sb, dev, d, ibk) && quiet(s, dev, d)) by {
        reveal(dir_ok);
    }
    let w = s.write_inode(sb, dev, inum, d, at, src);
    let (t, e, r) = w->0;
    law_read_after_write(s, sb, dev, inum, d, at, src);
    assert(src.take(Directory::SIZE as int) =~= src);
    lemma_dir_kept(s, t, sb, dev, ibk, d, e, at, src);
}

/// A directory that an entry was written to is one.
proof fn lemma_dir_kept(
    s: StoreState,
    t: StoreState,
    sb: SuperBlock,
    dev: u32,
    ibk: u32,
    d: InodeData,
    e: InodeData,
    at: u32,
    src: Seq<u8>,
)
    requires
        dir_ok(s, sb, dev, d, ibk),
        at <= d.size,
        at as int % (Directory::SIZE as int) == 0,
        src.len() == Directory::SIZE,
        at + src.len() <= MAXFILE * BSIZE,
        wrote(s, InodeData { size: e.size, ..d }, t, e, dev, at as int, src),
        tidy(t, sb, dev, e, ibk),
        quiet(t, dev, e),
        e.size == (if at + Directory::SIZE > d.size {
            at + Directory::SIZE
        } else {
            d.size as int
        }),
    ensures
        dir_ok(t, sb, dev, e, ibk),
{
    reveal(dir_ok);
    assert(e.typ == d.typ) by {
        reveal(wrote);
    }
    lemma_no_holes(s, t, dev, d, e, at as int, src);
}

/// Where there was a free place the directory is as large as it was.
proof fn lemma_placed_size(
    s: StoreState,
    t: StoreState,
    dev: u32,
    d: InodeData,
    e: InodeData,
    name: Seq<u8>,
    inum: u16,
    at: u32,
)
    requires
        placed(s, t, dev, d, e, name, inum, at),
    ensures
        e.size == d.size + (if exists|o: int| free_at(s, dev, d, o) {
            0
        } else {
            Directory::SIZE as int
        }),
{
    reveal(placed);
    reveal(first_free);
    if at < d.size {
        assert(free_at(s, dev, d, at as int));
    } else {
        assert(forall|o: int| !free_at(s, dev, d, o));
    }
}

/// What adding an entry to a tidy directory does.
proof fn lemma_linked(s: FsState, ino: Inode, d: InodeData, name: Seq<u8>, inum: u16)
    requires
        dir_ok(s.store, s.sb, ino.dev, d, s.sb.inode_block(ino.inum)),
        inum != 0,
        name.len() <= DIRSIZE,
        !name.contains(0u8),
        forall|o: int| !#[trigger] names_at(s.store, ino.dev, d, name, o),
        s.dir_add(ino, d, name, inum) is Some,
        (s.dir_add(ino, d, name, inum)->0).2 is Ok,
    ensures
        ({
            let (t, e, r) = s.dir_add(ino, d, name, inum)->0;
            &&& dir_ok(t.store, t.sb, ino.dev, e, t.sb.inode_block(ino.inum))
            &&& exists|at: u32| #[trigger] linked_at(t.store, ino.dev, e, name, inum, at)
            &&& e.size == d.size + (if exists|o: int| free_at(s.store, ino.dev, d, o) {
                0
            } else {
                Directory::SIZE as int
            })
            &&& forall|other: Seq<u8>|
                other != name ==> #[trigger] same_names(s.store, d, t.store, e, ino.dev, other)
        }),
{
    let dev = ino.dev;
    let (t, e, r) = s.dir_add(ino, d, name, inum)->0;
    lemma_placed(s, ino, d, name, inum);
    let at = choose|at: u32| #[trigger] placed(s.store, t.store, dev, d, e, name, inum, at);
    lemma_added(s.store, t.store, dev, d, e, name, inum, at);
    lemma_all_beside(s.store, t.store, dev, d, e, name, inum, at);
    lemma_placed_size(s.store, t.store, dev, d, e, name, inum, at);
    assert(linked_at(t.store, dev, e, name, inum, at));
}

/// What a lookup gives that finds `inum` at offset `o` and changes nothing.
pub open spec fn found_at(s: StoreState, d: InodeData, o: u32, inum: u16) -> Option<
    (StoreState, InodeData, Result<Option<(u32, u16)>, FsError>),
> {
    Some((s, d, Ok(Some((o, inum)))))
}

} // verus!
