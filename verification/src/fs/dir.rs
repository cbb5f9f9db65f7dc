//! Directories: files that list other files.
//!
//! A directory is a sequence of entries, each an inode number and a name. An entry with inode
//! number zero is free.
use vstd::prelude::*;
use crate::fs::inode::{Inode, InodeData, InodeInner, InodeType};
use crate::fs::table::{Fs, FsState};
use crate::fs::{FsError, SuperBlock, DIRSIZE};
use crate::le::{get_u16, u16_at, u16_bytes};
use crate::log::{Store, StoreState};
use crate::sleeplock::SleepLockGuard;

verus! {

/// What a directory entry says.
#[verifier::ext_equal]
pub struct DirEntry {
    pub inum: u16,
    pub name: Seq<u8>,
}

/// A directory entry
#[derive(Debug, Clone, Copy)]
pub struct Directory {
    pub inum: u16,
    pub name: [u8; DIRSIZE],
}

impl View for Directory {
    type V = DirEntry;

    open spec fn view(&self) -> DirEntry {
        DirEntry { inum: self.inum, name: self.name@ }
    }
}

impl DirEntry {
    /// The entry with the bytes `b`.
    pub open spec fn of(b: Seq<u8>) -> DirEntry {
        DirEntry { inum: u16_at(b, 0), name: b.subrange(2, Directory::SIZE as int) }
    }

    /// The bytes of the entry.
    pub open spec fn bytes(self) -> Seq<u8> {
        u16_bytes(self.inum) + self.name
    }

    /// The entry's name, up to its terminator, is `name`.
    pub open spec fn is_named(self, name: Seq<u8>) -> bool {
        &&& name.len() <= DIRSIZE
        &&& !name.contains(0u8)
        &&& self.name.take(name.len() as int) == name
        &&& name.len() < DIRSIZE ==> self.name[name.len() as int] == 0
    }
}

/// `name` as it stands in an entry: cut off or filled up with zeros.
pub open spec fn padded(name: Seq<u8>) -> Seq<u8> {
    Seq::new(
        DIRSIZE as nat,
        |i: int|
            if i < name.len() {
                name[i]
            } else {
                0u8
            },
    )
}

impl StoreState {
    /// Reading the entry at `offset` of the directory `d`; `None` where there is no whole entry.
    pub open spec fn read_entry(self, sb: SuperBlock, dev: u32, d: InodeData, offset: u32) -> Option<
        (StoreState, InodeData, Result<DirEntry, FsError>),
    > {
        match self.read_inode(sb, dev, d, offset, Directory::SIZE as u32) {
            None => None,
            Some((s, d, Err(e))) => Some((s, d, Err(e))),
            Some((s, d, Ok(bytes))) => if bytes.len() == Directory::SIZE {
                Some((s, d, Ok(DirEntry::of(bytes))))
            } else {
                None
            },
        }
    }

    /// Searching the entries from `offset` up to `size` for `name`: where the first one is, and
    /// its inode number.
    pub open spec fn find_entry(
        self,
        sb: SuperBlock,
        dev: u32,
        d: InodeData,
        name: Seq<u8>,
        offset: int,
        size: int,
    ) -> Option<(StoreState, InodeData, Result<Option<(u32, u16)>, FsError>)>
        decreases size + Directory::SIZE - offset,
    {
        if offset >= size {
            Some((self, d, Ok(None)))
        } else {
            match self.read_entry(sb, dev, d, offset as u32) {
                None => None,
                Some((s, d, Err(e))) => Some((s, d, Err(e))),
                Some((s, d, Ok(entry))) => if entry.inum != 0 && entry.is_named(name) {
                    Some((s, d, Ok(Some((offset as u32, entry.inum)))))
                } else {
                    s.find_entry(sb, dev, d, name, offset + Directory::SIZE, size)
                },
            }
        }
    }

    /// Searching the entries from `offset` up to `size` for a free one; gives the offset of the
    /// first, or the end.
    pub open spec fn find_slot(
        self,
        sb: SuperBlock,
        dev: u32,
        d: InodeData,
        offset: int,
        size: int,
    ) -> Option<(StoreState, InodeData, Result<u32, FsError>)>
        decreases size + Directory::SIZE - offset,
    {
        if offset >= size {
            Some((self, d, Ok(offset as u32)))
        } else {
            match self.read_entry(sb, dev, d, offset as u32) {
                None => None,
                Some((s, d, Err(e))) => Some((s, d, Err(e))),
                Some((s, d, Ok(entry))) => if entry.inum == 0 {
                    Some((s, d, Ok(offset as u32)))
                } else {
                    s.find_slot(sb, dev, d, offset + Directory::SIZE, size)
                },
            }
        }
    }

    /// Whether all entries from `offset` up to `size` are free; `None` where one cannot be read.
    pub open spec fn all_free(
        self,
        sb: SuperBlock,
        dev: u32,
        d: InodeData,
        offset: int,
        size: int,
    ) -> Option<(StoreState, InodeData, bool)>
        decreases size + Directory::SIZE - offset,
    {
        if offset >= size {
            Some((self, d, true))
        } else {
            match self.read_entry(sb, dev, d, offset as u32) {
                None => None,
                Some((s, d, Err(e))) => None,
                Some((s, d, Ok(entry))) => if entry.inum != 0 {
                    Some((s, d, false))
                } else {
                    s.all_free(sb, dev, d, offset + Directory::SIZE, size)
                },
            }
        }
    }
}

impl FsState {
    /// The state with another block layer.
    pub open spec fn with_store(self, store: StoreState) -> FsState {
        FsState { store, ..self }
    }

    /// Looking up `name` in the directory `d`, which is `ino`; `None` where it is no directory.
    #[verifier::opaque]
    pub open spec fn dir_lookup(self, ino: Inode, d: InodeData, name: Seq<u8>) -> Option<
        (FsState, InodeData, Result<Option<(u32, Inode)>, FsError>),
    > {
        if d.typ != InodeType::Directory {
            None
        } else {
            match self.store.find_entry(self.sb, ino.dev, d, name, 0, d.size as int) {
                None => None,
                Some((s, d, Err(e))) => Some((self.with_store(s), d, Err(e))),
                Some((s, d, Ok(None))) => Some((self.with_store(s), d, Ok(None))),
                Some((s, d, Ok(Some((offset, inum))))) => match self.with_store(s).get(
                    ino.dev,
                    inum as u32,
                ) {
                    None => None,
                    Some((s, Err(e))) => Some((s, d, Err(e))),
                    Some((s, Ok(found))) => Some((s, d, Ok(Some((offset, found))))),
                },
            }
        }
    }

    /// Adding the entry `name` for `inum` to the directory `d`, which is `ino` and has no such
    /// entry.
    #[verifier::opaque]
    pub open spec fn dir_add(self, ino: Inode, d: InodeData, name: Seq<u8>, inum: u16) -> Option<
        (FsState, InodeData, Result<(), FsError>),
    > {
        match self.store.find_slot(self.sb, ino.dev, d, 0, d.size as int) {
            None => None,
            Some((s, d, Err(e))) => Some((self.with_store(s), d, Err(e))),
            Some((s, d, Ok(offset))) => {
                let entry = DirEntry { inum, name: padded(name) };
                match s.write_inode(self.sb, ino.dev, ino.inum, d, offset, entry.bytes()) {
                    None => None,
                    Some((s, d, Err(e))) => Some((self.with_store(s), d, Err(e))),
                    Some((s, d, Ok(n))) => Some(
                        (
                            self.with_store(s),
                            d,
                            if n == Directory::SIZE {
                                Ok(())
                            } else {
                                Err(FsError::Link)
                            },
                        ),
                    ),
                }
            },
        }
    }

    /// Adding the entry `name` for `inum` to the directory `d`, which is `ino`; an error if there
    /// is such an entry.
    #[verifier::opaque]
    pub open spec fn dir_link(self, ino: Inode, d: InodeData, name: Seq<u8>, inum: u16) -> Option<
        (FsState, InodeData, Result<(), FsError>),
    > {
        match self.dir_lookup(ino, d, name) {
            None => None,
            Some((s, d, Ok(Some((_, found))))) => match s.put(found) {
                None => None,
                Some(s) => Some((s, d, Err(FsError::Link))),
            },
            Some((s, d, _)) => s.dir_add(ino, d, name, inum),
        }
    }
}

impl Directory {
    /// Size of an entry
    pub const SIZE: usize = 16;

    /// A free entry.
    pub fn new_empty() -> (r: Self)
        ensures
            r@ == (DirEntry { inum: 0, name: padded(seq![]) }),
    {
        let r = Directory { inum: 0, name: [0u8;DIRSIZE] };
        assert(r.name@ =~= padded(seq![]));
        r
    }

    /// The entry with the given bytes.
    pub fn from_bytes(bytes: &[u8; Directory::SIZE]) -> (r: Self)
        ensures
            r@ == DirEntry::of(bytes@),
    {
        let mut name = [0u8;DIRSIZE];
        let mut i: usize = 0;
        while i < DIRSIZE
            invariant
                i <= DIRSIZE,
                forall|j: int| 0 <= j < i ==> #[trigger] name@[j] == bytes@[j + 2],
            decreases DIRSIZE - i,
        {
            name[i] = bytes[i + 2];
            i += 1;
        }
        let r = Directory { inum: get_u16(bytes, 0), name };
        assert(r.name@ =~= DirEntry::of(bytes@).name);
        r
    }

    /// The bytes of the entry.
    pub fn as_bytes(&self) -> (r: [u8; Directory::SIZE])
        ensures
            r@ == self@.bytes(),
    {
        let mut r = [0u8;Directory::SIZE];
        crate::le::put_u16(&mut r, 0, self.inum);
        let mut i: usize = 0;
        while i < DIRSIZE
            invariant
                i <= DIRSIZE,
                r@[0] == u16_bytes(self.inum)[0],
                r@[1] == u16_bytes(self.inum)[1],
                forall|j: int| 0 <= j < i ==> #[trigger] r@[j + 2] == self.name@[j],
            decreases DIRSIZE - i,
        {
            r[i + 2] = self.name[i];
            i += 1;
        }
        assert forall|j: int| 2 <= j < Directory::SIZE implies r@[j] == self@.bytes()[j] by {
            assert(r@[j - 2 + 2] == self.name@[j - 2]);
        }
        assert(r@ =~= self@.bytes());
        r
    }

    /// Reads the entry at `offset` of a directory.
    pub fn from_inode(
        inode: &Inode,
        store: &mut Store,
        sb: &SuperBlock,
        inner: &mut SleepLockGuard<InodeInner>,
        offset: u32,
    ) -> (r: Result<Directory, FsError>)
        requires
            old(store).wf(),
            sb.in_range(),
            old(store)@.read_entry(*sb, inode.dev, old(inner).data@, offset) is Some,
        ensures
            final(store).wf(),
            ({
                let (s, d, entry) = old(store)@.read_entry(
                    *sb,
                    inode.dev,
                    old(inner).data@,
                    offset,
                )->0;
                &&& final(store)@ == s
                &&& final(inner).data@ == d
                &&& match entry {
                    Ok(entry) => r is Ok && r->Ok_0@ == entry,
                    Err(e) => r == Err::<Directory, FsError>(e),
                }
            }),
    {
        let mut buf = [0u8;Directory::SIZE];
        let read = inode.read(store, sb, inner, offset, &mut buf);
        match read {
            Ok(n) => {
                proof {
                    let (_, _, bytes) = old(store)@.read_inode(
                        *sb,
                        inode.dev,
                        old(inner).data@,
                        offset,
                        Directory::SIZE as u32,
                    )->0;
                    assert(buf@ =~= bytes->Ok_0);
                }
                Ok(Directory::from_bytes(&buf))
            },
            Err(e) => Err(e),
        }
    }

    /// Whether the entry has the given name.
    pub fn is_name_equal(&self, name: &[u8]) -> (r: bool)
        ensures
            r == self@.is_named(name@),
    {
        if name.len() > DIRSIZE {
            return false;
        }
        let mut i: usize = 0;
        while i < name.len()
            invariant
                i <= name.len(),
                name.len() <= DIRSIZE,
                forall|j: int| 0 <= j < i ==> #[trigger] name@[j] == self.name@[j] && name@[j] != 0,
            decreases name.len() - i,
        {
            if name[i] == 0 || name[i] != self.name[i] {
                proof {
                    assert(name@[i as int] == 0 ==> name@.contains(0u8));
                    assert(self.name@.take(name@.len() as int)[i as int] == self.name@[i as int]);
                }
                return false;
            }
            i += 1;
        }
        assert(self.name@.take(name@.len() as int) =~= name@);
        name.len() == DIRSIZE || self.name[name.len()] == 0
    }

    /// Gives the entry a name.
    pub fn set_name(&mut self, name: &[u8])
        ensures
            final(self)@ == (DirEntry { inum: old(self).inum, name: padded(name@) }),
    {
        let mut n = [0u8;DIRSIZE];
        let mut i: usize = 0;
        while i < DIRSIZE && i < name.len()
            invariant
                i <= DIRSIZE,
                i <= name.len(),
                forall|j: int| 0 <= j < i ==> #[trigger] n@[j] == name@[j],
                forall|j: int| i <= j < DIRSIZE ==> #[trigger] n@[j] == 0,
            decreases DIRSIZE - i,
        {
            n[i] = name[i];
            i += 1;
        }
        self.name = n;
        assert(self.name@ =~= padded(name@));
    }

    /// Checks whether the directory is empty (only contains `.` and `..`).
    pub fn is_empty(
        inode: &Inode,
        store: &mut Store,
        sb: &SuperBlock,
        inner: &mut SleepLockGuard<InodeInner>,
    ) -> (r: bool)
        requires
            old(store).wf(),
            sb.in_range(),
            old(store)@.all_free(
                *sb,
                inode.dev,
                old(inner).data@,
                2 * Directory::SIZE,
                old(inner).data.size as int,
            ) is Some,
        ensures
            final(store).wf(),
            Some((final(store)@, final(inner).data@, r)) == old(store)@.all_free(
                *sb,
                inode.dev,
                old(inner).data@,
                2 * Directory::SIZE,
                old(inner).data.size as int,
            ),
    {
        let size = inner.data.size;
        let ghost want = store@.all_free(
            *sb,
            inode.dev,
            inner.data@,
            2 * Directory::SIZE,
            size as int,
        );
        let mut offset: u32 = 2 * Directory::SIZE as u32;
        while offset < size
            invariant
                store.wf(),
                sb.in_range(),
                want is Some,
                want == old(store)@.all_free(
                    *sb,
                    inode.dev,
                    old(inner).data@,
                    2 * Directory::SIZE,
                    old(inner).data.size as int,
                ),
                want == store@.all_free(*sb, inode.dev, inner.data@, offset as int, size as int),
            decreases size + Directory::SIZE - offset,
        {
            let dir = Directory::from_inode(inode, store, sb, inner, offset).unwrap();
            if dir.inum != 0 {
                return false;
            }
            offset += Directory::SIZE as u32;
        }
        true
    }

    /// Looks up for a directory entry in a directory.
    /// If found, returns byte offset and Inode.
    pub fn lookup(
        inode: &Inode,
        fs: &mut Fs,
        inner: &mut SleepLockGuard<InodeInner>,
        name: &[u8],
    ) -> (r: Result<Option<(u32, Inode)>, FsError>)
        requires
            old(fs).wf(),
            old(fs)@.dir_lookup(*inode, old(inner).data@, name@) is Some,
        ensures
            final(fs).wf(),
            final(fs)@.sb == old(fs)@.sb,
            Some((final(fs)@, final(inner).data@, r)) == old(fs)@.dir_lookup(
                *inode,
                old(inner).data@,
                name@,
            ),
    {
        proof {
            reveal(FsState::dir_lookup);
        }
        let sb = fs.superblock();
        let size = inner.data.size;
        let ghost s0 = fs@;
        let ghost want = fs.store@.find_entry(sb, inode.dev, inner.data@, name@, 0, size as int);
        let mut offset: u32 = 0;
        while offset < size
            invariant
                fs.wf(),
                fs@.sb == sb,
                s0 == old(fs)@,
                size == old(inner).data.size,
                s0.dir_lookup(*inode, old(inner).data@, name@) is Some,
                want is Some,
                want == s0.store.find_entry(
                    sb,
                    inode.dev,
                    old(inner).data@,
                    name@,
                    0,
                    size as int,
                ),
                want == fs.store@.find_entry(
                    sb,
                    inode.dev,
                    inner.data@,
                    name@,
                    offset as int,
                    size as int,
                ),
                fs@ == s0.with_store(fs.store@),
            decreases size + Directory::SIZE - offset,
        {
            proof {
                reveal(FsState::dir_lookup);
            }
            match Directory::from_inode(inode, &mut fs.store, &sb, inner, offset) {
                Ok(dir) => {
                    if dir.inum != 0 && dir.is_name_equal(name) {
                        // entry matches path element
                        match Inode::get(fs, inode.dev, dir.inum as u32) {
                            Ok(dir_inode) => {
                                return Ok(Some((offset, dir_inode)));
                            },
                            Err(e) => {
                                return Err(e);
                            },
                        }
                    }
                },
                Err(e) => {
                    return Err(e);
                },
            }
            offset += Directory::SIZE as u32;
        }
        Ok(None)
    }

    /// Writes a new directory entry (name, inum) into the directory Inode.
    pub fn link(
        inode: &Inode,
        fs: &mut Fs,
        inner: &mut SleepLockGuard<InodeInner>,
        name: &[u8],
        inum: u16,
    ) -> (r: Result<(), FsError>)
        requires
            old(fs).wf(),
            old(fs)@.dir_link(*inode, old(inner).data@, name@, inum) is Some,
        ensures
            final(fs).wf(),
            final(fs)@.sb == old(fs)@.sb,
            Some((final(fs)@, final(inner).data@, r)) == old(fs)@.dir_link(
                *inode,
                old(inner).data@,
                name@,
                inum,
            ),
    {
        proof {
            reveal(FsState::dir_link);
            reveal(FsState::dir_add);
        }
        let sb = fs.superblock();
        // check the name is not present
        if let Ok(Some((_, dir))) = Directory::lookup(inode, fs, inner, name) {
            dir.put(fs);
            return Err(FsError::Link);
        }
        // look for an empty directory
        let ghost s1 = fs@;
        let ghost d1 = inner.data@;
        let size = inner.data.size;
        let ghost want = fs.store@.find_slot(sb, inode.dev, inner.data@, 0, size as int);
        let mut dir = Directory::new_empty();
        let mut offset: u32 = 0;
        while offset < size
            invariant_except_break
                want == fs.store@.find_slot(
                    sb,
                    inode.dev,
                    inner.data@,
                    offset as int,
                    size as int,
                ),
            invariant
                fs.wf(),
                fs@.sb == sb,
                fs@ == s1.with_store(fs.store@),
                s1.sb == old(fs)@.sb,
                s1.dir_add(*inode, d1, name@, inum) is Some,
                size == d1.size,
                Some(s1.dir_add(*inode, d1, name@, inum)->0) == old(fs)@.dir_link(
                    *inode,
                    old(inner).data@,
                    name@,
                    inum,
                ),
                want is Some,
                want == s1.store.find_slot(sb, inode.dev, d1, 0, size as int),
            ensures
                want == Some((fs.store@, inner.data@, Ok::<u32, FsError>(offset))),
            decreases size + Directory::SIZE - offset,
        {
            proof {
                reveal(FsState::dir_add);
            }
            match Directory::from_inode(inode, &mut fs.store, &sb, inner, offset) {
                Ok(entry) => {
                    dir = entry;
                    // if we find an empty slot break and use it.
                    // otherwise, the dir will be appended to the end
                    if dir.inum == 0 {
                        break;
                    }
                },
                Err(e) => {
                    return Err(e);
                },
            }
            offset += Directory::SIZE as u32;
        }
        dir.set_name(name);
        dir.inum = inum;
        let bytes = dir.as_bytes();
        match inode.write(&mut fs.store, &sb, inner, offset, &bytes) {
            Ok(n) => {
                if n as usize != Directory::SIZE {
                    return Err(FsError::Link);
                }
                Ok(())
            },
            Err(e) => Err(e),
        }
    }
}

} // verus!
