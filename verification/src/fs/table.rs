//! The table of active inodes.
//!
//! An entry is in use while its reference count is not zero. An inode's data is valid once it was
//! read from disk, which `lock` sees to.
use vstd::prelude::*;
use crate::fs::inode::{
    dinode_at,
    dinode_offset,
    dinode_ok,
    DiskInode,
    Inode,
    InodeData,
    InodeInner,
    InodeType,
};
use crate::fs::{FsError, SuperBlock, FSMAGIC, IPB, DINODESIZE};
use crate::le::{put_u16, splice, u16_bytes, u32_at};
use crate::log;
use crate::log::{Store, StoreState};
use crate::param::{LOGBLOCKS, NINODE};
use crate::sleeplock::{SleepLock, SleepLockGuard};
use crate::sync::OnceLock;
use crate::virtio_disk::BlockId;

verus! {

/// Metadata about an inode
#[derive(Debug, Clone, Copy)]
pub struct InodeMeta {
    /// Device number
    pub dev: u32,
    /// Inode number
    pub inum: u32,
    /// Reference count
    pub refs: u32,
}

impl InodeMeta {
    pub fn new() -> (r: Self)
        ensures
            r == (InodeMeta { dev: 0, inum: 0, refs: 0 }),
    {
        InodeMeta { dev: 0, inum: 0, refs: 0 }
    }
}

/// The inodes in memory.
pub struct InodeTable {
    pub meta: Vec<InodeMeta>,
    pub inner: Vec<SleepLock<InodeInner>>,
}

impl InodeTable {
    /// A table with no entry in use.
    pub fn new() -> (r: Self)
        ensures
            r.meta@.len() == NINODE,
            r.inner@.len() == NINODE,
            forall|i: int|
                0 <= i < NINODE ==> #[trigger] r.meta@[i] == (InodeMeta { dev: 0, inum: 0, refs: 0 }),
            forall|i: int|
                0 <= i < NINODE ==> (#[trigger] r.inner@[i]).data@ == InodeData::empty()
                    && !r.inner@[i].inner.locked,
    {
        let mut meta: Vec<InodeMeta> = Vec::new();
        let mut inner: Vec<SleepLock<InodeInner>> = Vec::new();
        let mut i: usize = 0;
        while i < NINODE
            invariant
                i <= NINODE,
                meta@.len() == i,
                inner@.len() == i,
                forall|j: int|
                    0 <= j < i ==> #[trigger] meta@[j] == (InodeMeta { dev: 0, inum: 0, refs: 0 }),
                forall|j: int|
                    0 <= j < i ==> (#[trigger] inner@[j]).data@ == InodeData::empty()
                        && !inner@[j].inner.locked,
            decreases NINODE - i,
        {
            meta.push(InodeMeta::new());
            inner.push(SleepLock::new(InodeInner::new(), "inode"));
            i += 1;
        }
        InodeTable { meta, inner }
    }
}

/// The file system: the block layer, the superblock and the inodes in memory.
pub struct Fs {
    pub store: Store,
    pub sb: OnceLock<SuperBlock>,
    pub itable: InodeTable,
}

/// What the file system holds.
#[verifier::ext_equal]
pub struct FsState {
    pub store: StoreState,
    pub sb: SuperBlock,
    pub meta: Seq<InodeMeta>,
    pub inner: Seq<InodeData>,
    pub locked: Seq<bool>,
}

impl View for Fs {
    type V = FsState;

    open spec fn view(&self) -> FsState {
        FsState {
            store: self.store@,
            sb: self.sb.value()->0,
            meta: self.itable.meta@,
            inner: self.itable.inner@.map_values(|l: SleepLock<InodeInner>| l.data@),
            locked: self.itable.inner@.map_values(|l: SleepLock<InodeInner>| l.inner.locked),
        }
    }
}

impl FsState {
    /// Entry `i` of the table is in use for inode `inum` on `dev`.
    pub open spec fn active(self, i: int, dev: u32, inum: u32) -> bool {
        0 <= i < NINODE && self.meta[i].refs > 0 && self.meta[i].dev == dev && self.meta[i].inum == inum
    }

    /// `i` is the first entry in use for inode `inum` on `dev`.
    pub open spec fn hit(self, i: int, dev: u32, inum: u32) -> bool {
        self.active(i, dev, inum) && forall|j: int| 0 <= j < i ==> !#[trigger] self.active(j, dev, inum)
    }

    /// `i` is the first entry that is not in use.
    pub open spec fn vacant(self, i: int) -> bool {
        0 <= i < NINODE && self.meta[i].refs == 0 && forall|j: int|
            0 <= j < i ==> (#[trigger] self.meta[j]).refs != 0
    }

    /// Taking a reference to inode `inum` on `dev`; `None` where the count would overflow.
    #[verifier::opaque]
    pub open spec fn get(self, dev: u32, inum: u32) -> Option<(FsState, Result<Inode, FsError>)> {
        if exists|i: int| self.hit(i, dev, inum) {
            let i = choose|i: int| self.hit(i, dev, inum);
            match self.add_ref(i) {
                Some(s) => Some((s, Ok(Inode { id: i as usize, dev, inum }))),
                None => None,
            }
        } else if exists|i: int| self.vacant(i) {
            let i = choose|i: int| self.vacant(i);
            Some(
                (
                    FsState {
                        meta: self.meta.update(i, InodeMeta { dev, inum, refs: 1 }),
                        inner: self.inner.update(i, InodeData { valid: false, ..self.inner[i] }),
                        ..self
                    },
                    Ok(Inode { id: i as usize, dev, inum }),
                ),
            )
        } else {
            Some((self, Err(FsError::OutOfInode)))
        }
    }

    /// Another reference to entry `i`; `None` where the count would overflow.
    pub open spec fn add_ref(self, i: int) -> Option<FsState> {
        if 0 <= i < NINODE && self.meta[i].refs < u32::MAX {
            Some(
                FsState {
                    meta: self.meta.update(
                        i,
                        InodeMeta { refs: (self.meta[i].refs + 1) as u32, ..self.meta[i] },
                    ),
                    ..self
                },
            )
        } else {
            None
        }
    }

    /// Locking `ino`, whose data is read from disk if that has not been done; `None` where it is
    /// locked or there is no such inode.
    #[verifier::opaque]
    pub open spec fn lock(self, ino: Inode) -> Option<(FsState, InodeData)> {
        let s = FsState { locked: self.locked.update(ino.id as int, true), ..self };
        let b = self.store.blocks[(ino.dev, self.sb.inode_block(ino.inum))];
        if ino.id >= NINODE || self.locked[ino.id as int] {
            None
        } else if self.inner[ino.id as int].valid {
            Some((s, self.inner[ino.id as int]))
        } else if self.store.inode_readable(self.sb, ino.dev, ino.inum) && dinode_ok(b, ino.inum)
            && dinode_at(b, ino.inum).typ != InodeType::Free {
            Some((s, dinode_at(b, ino.inum)))
        } else {
            None
        }
    }

    /// Unlocking `ino`, whose data becomes `d`.
    pub open spec fn unlock(self, ino: Inode, d: InodeData) -> FsState {
        FsState {
            locked: self.locked.update(ino.id as int, false),
            inner: self.inner.update(ino.id as int, d),
            ..self
        }
    }

    /// Freeing `ino` on disk, with its contents; `None` where it cannot be done.
    pub open spec fn free_inode(self, ino: Inode) -> Option<FsState> {
        match self.store.trunc_inode(self.sb, ino.dev, ino.inum, self.inner[ino.id as int]) {
            None => None,
            Some((s1, d1)) => {
                let d2 = InodeData { typ: InodeType::Free, ..d1 };
                match s1.update_inode(self.sb, ino.dev, ino.inum, d2) {
                    None => None,
                    Some(s2) => Some(
                        FsState {
                            store: s2,
                            inner: self.inner.update(
                                ino.id as int,
                                InodeData { valid: false, ..d2 },
                            ),
                            ..self
                        },
                    ),
                }
            },
        }
    }

    /// The state with one reference to `ino` less.
    pub open spec fn drop_ref(self, ino: Inode) -> FsState {
        let m = self.meta[ino.id as int];
        FsState {
            meta: self.meta.update(
                ino.id as int,
                InodeMeta { refs: (m.refs - 1) as u32, ..m },
            ),
            ..self
        }
    }

    /// Dropping a reference to `ino`. With the last one goes an inode that has no links; `None`
    /// where there is no reference, or where freeing cannot be done.
    #[verifier::opaque]
    pub open spec fn put(self, ino: Inode) -> Option<FsState> {
        let m = self.meta[ino.id as int];
        let d = self.inner[ino.id as int];
        if ino.id >= NINODE || m.refs == 0 {
            None
        } else if m.refs > 1 {
            Some(self.drop_ref(ino))
        } else if self.locked[ino.id as int] {
            None
        } else if d.valid && d.nlink == 0 {
            match self.free_inode(ino) {
                None => None,
                Some(s) => Some(s.drop_ref(ino)),
            }
        } else {
            Some(self.drop_ref(ino))
        }
    }

    /// Unlocking and dropping a reference.
    pub open spec fn unlock_put(self, ino: Inode, d: InodeData) -> Option<FsState> {
        self.unlock(ino, d).put(ino)
    }

    /// Inode `inum` on `dev`, as it is on disk.
    pub open spec fn on_disk(self, dev: u32, inum: u32) -> InodeData {
        dinode_at(self.store.blocks[(dev, self.sb.inode_block(inum))], inum)
    }

    /// Inode `inum` on `dev` can be read from disk.
    pub open spec fn disk_ok(self, dev: u32, inum: u32) -> bool {
        self.store.inode_readable(self.sb, dev, inum) && dinode_ok(
            self.store.blocks[(dev, self.sb.inode_block(inum))],
            inum,
        )
    }

    /// `inum` is the first inode on `dev` that is free.
    pub open spec fn free_inum(self, dev: u32, inum: u32) -> bool {
        &&& 1 <= inum < self.sb.ninodes
        &&& self.on_disk(dev, inum).typ == InodeType::Free
        &&& forall|j: u32| 1 <= j < inum ==> (#[trigger] self.on_disk(dev, j)).typ != InodeType::Free
    }

    /// Allocating an inode: the first free one gets the type `typ` on disk. `None` where a block
    /// that is needed is in use or the transaction has no room.
    #[verifier::opaque]
    pub open spec fn alloc_inode(self, dev: u32, typ: InodeType) -> Option<
        (FsState, Result<Inode, FsError>),
    > {
        if exists|i: u32| self.free_inum(dev, i) {
            let i = choose|i: u32| self.free_inum(dev, i);
            let id = (dev, self.sb.inode_block(i));
            if (forall|j: u32| 1 <= j <= i ==> #[trigger] self.disk_ok(dev, j)) && self.store.writable(id) {
                let b = splice(
                    self.store.blocks[id],
                    dinode_offset(i),
                    u16_bytes(typ.code()),
                );
                FsState { store: self.store.write(id, b), ..self }.get(dev, i)
            } else {
                None
            }
        } else if forall|j: u32| 1 <= j < self.sb.ninodes ==> #[trigger] self.disk_ok(dev, j) {
            Some((self, Err(FsError::OutOfInode)))
        } else {
            None
        }
    }
}

impl Fs {
    /// The file system is set up and its parts are in order.
    pub open spec fn wf(self) -> bool {
        &&& self.store.wf()
        &&& self.sb.value() is Some
        &&& self@.sb.in_range()
        &&& self.itable.meta@.len() == NINODE
        &&& self.itable.inner@.len() == NINODE
    }

    /// The tables are there.
    pub open spec fn tables_ok(self) -> bool {
        &&& self.itable.meta@.len() == NINODE
        &&& self.itable.inner@.len() == NINODE
    }

    /// The superblock.
    pub fn superblock(&self) -> (r: SuperBlock)
        requires
            self.sb.value() is Some,
        ensures
            r == self@.sb,
    {
        *self.sb.get().unwrap()
    }
}

proof fn lemma_hit(s: FsState, dev: u32, inum: u32, i: int)
    requires
        s.hit(i, dev, inum),
    ensures
        (choose|i: int| s.hit(i, dev, inum)) == i,
{
    let c = choose|i: int| s.hit(i, dev, inum);
    assert(s.hit(c, dev, inum));
    if c < i {
        assert(s.active(c, dev, inum));
    }
    if i < c {
        assert(s.active(i, dev, inum));
    }
}

proof fn lemma_vacant(s: FsState, i: int)
    requires
        s.vacant(i),
    ensures
        (choose|i: int| s.vacant(i)) == i,
{
    let c = choose|i: int| s.vacant(i);
    assert(s.vacant(c));
    if c < i {
        assert(s.meta[c].refs != 0);
    }
    if i < c {
        assert(s.meta[i].refs != 0);
    }
}

impl Inode {
    /// Finds the inode with number `inum` on device `dev` and returns the in-memory copy.
    /// Does not lock the inode and does not read it from disk.
    pub fn get(fs: &mut Fs, dev: u32, inum: u32) -> (r: Result<Inode, FsError>)
        requires
            old(fs).tables_ok(),
            old(fs)@.get(dev, inum) is Some,
        ensures
            final(fs).tables_ok(),
            final(fs).sb == old(fs).sb,
            final(fs).store == old(fs).store,
            Some((final(fs)@, r)) == old(fs)@.get(dev, inum),
    {
        proof {
            reveal(FsState::get);
        }
        let ghost s0 = fs@;
        let mut empty: Option<usize> = None;
        let mut id: usize = 0;
        while id < NINODE
            invariant
                id <= NINODE,
                *fs == *old(fs),
                fs.tables_ok(),
                s0 == fs@,
                s0.get(dev, inum) is Some,
                forall|j: int| 0 <= j < id ==> !#[trigger] s0.active(j, dev, inum),
                empty is None ==> forall|j: int| 0 <= j < id ==> (#[trigger] s0.meta[j]).refs != 0,
                empty matches Some(e) ==> e < id && s0.vacant(e as int),
            decreases NINODE - id,
        {
            proof {
                reveal(FsState::get);
            }
            let m = fs.itable.meta[id];
            assert(m == s0.meta[id as int]);
            if m.refs > 0 && m.dev == dev && m.inum == inum {
                proof {
                    assert(s0.active(id as int, dev, inum));
                    assert(s0.hit(id as int, dev, inum));
                    lemma_hit(s0, dev, inum, id as int);
                }
                fs.itable.meta[id].refs = m.refs + 1;
                return Ok(Inode { id, dev, inum });
            }
            if empty.is_none() && m.refs == 0 {
                empty = Some(id);
            }
            id += 1;
        }
        proof {
            assert forall|i: int| !s0.hit(i, dev, inum) by {
                if s0.hit(i, dev, inum) {
                    assert(s0.active(i, dev, inum));
                }
            }
        }
        match empty {
            Some(id) => {
                proof {
                    lemma_vacant(s0, id as int);
                }
                fs.itable.meta[id] = InodeMeta { dev, inum, refs: 1 };
                fs.itable.inner[id].data.valid = false;
                proof {
                    assert(fs@.inner =~= s0.inner.update(
                        id as int,
                        InodeData { valid: false, ..s0.inner[id as int] },
                    ));
                    assert(fs@.locked =~= s0.locked);
                }
                Ok(Inode { id, dev, inum })
            },
            None => {
                assert forall|i: int| !s0.vacant(i) by {}
                Err(FsError::OutOfInode)
            },
        }
    }

    /// Increments the reference count of the inode.
    /// Returns the inode to enable the `inode = inode1.dup()` idiom.
    pub fn dup(&self, fs: &mut Fs) -> (r: Inode)
        requires
            old(fs).wf(),
            old(fs)@.add_ref(self.id as int) is Some,
        ensures
            final(fs).wf(),
            final(fs)@.sb == old(fs)@.sb,
            final(fs).store == old(fs).store,
            r == *self,
            Some(final(fs)@) == old(fs)@.add_ref(self.id as int),
    {
        let refs = fs.itable.meta[self.id].refs;
        fs.itable.meta[self.id].refs = refs + 1;
        *self
    }

    /// Locks the inode. Reads the inode from disk if necessary.
    pub fn lock(&self, fs: &mut Fs) -> (r: SleepLockGuard<InodeInner>)
        requires
            old(fs).wf(),
            old(fs)@.lock(*self) is Some,
        ensures
            final(fs).wf(),
            final(fs)@.sb == old(fs)@.sb,
            Some((final(fs)@, r.data@)) == old(fs)@.lock(*self),
            self.id < NINODE,
    {
        proof {
            reveal(FsState::lock);
        }
        let ghost s0 = fs@;
        let sb = fs.superblock();
        let pid = fs.store.pid;
        let mut guard = fs.itable.inner[self.id].lock(pid).unwrap();
        proof {
            assert(fs@.inner =~= s0.inner);
            assert(fs@.locked =~= s0.locked.update(self.id as int, true));
            assert(guard.data@ == s0.inner[self.id as int]);
        }
        if !guard.data.valid {
            let ghost st = fs.store@;
            let buf = fs.store.bread(self.dev, sb.inodestart + (self.inum / IPB));
            let dinode = DiskInode::from_buf(&buf, self.inum);
            guard.data = InodeInner {
                valid: true,
                typ: dinode.typ,
                major: dinode.major,
                minor: dinode.minor,
                nlink: dinode.nlink,
                size: dinode.size,
                addrs: dinode.addrs,
            };
            fs.store.brelse(buf);
            proof {
                assert(guard.data@ == dinode.data());
                assert(fs.store@.held =~= st.held);
                assert(fs.store@ =~= st);
            }
        }
        guard
    }

    /// Unlocks the inode.
    pub fn unlock(&self, fs: &mut Fs, guard: SleepLockGuard<InodeInner>)
        requires
            old(fs).wf(),
            self.id < NINODE,
        ensures
            final(fs).wf(),
            final(fs)@.sb == old(fs)@.sb,
            final(fs).store == old(fs).store,
            final(fs)@ == old(fs)@.unlock(*self, guard.data@),
    {
        let ghost s0 = fs@;
        fs.itable.inner[self.id].unlock(guard);
        proof {
            assert(fs@.inner =~= s0.inner.update(self.id as int, guard.data@));
            assert(fs@.locked =~= s0.locked.update(self.id as int, false));
        }
    }

    /// Drops a reference to an in-memory inode.
    /// If that was the last reference, the inode table entry can be recycled.
    /// If that was the last reference and the inode has no links to it, free the inode (and its
    /// content) on disk.
    /// All calls must be inside a transaction in case it has to free the inode.
    pub fn put(self, fs: &mut Fs)
        requires
            old(fs).wf(),
            old(fs)@.put(self) is Some,
        ensures
            final(fs).wf(),
            final(fs)@.sb == old(fs)@.sb,
            Some(final(fs)@) == old(fs)@.put(self),
    {
        proof {
            reveal(FsState::put);
        }
        let ghost s0 = fs@;
        let sb = fs.superblock();
        let refs = fs.itable.meta[self.id].refs;
        if refs == 1 {
            // no other process can have the inode locked, so this does not wait
            let pid = fs.store.pid;
            let mut guard = fs.itable.inner[self.id].lock(pid).unwrap();
            assert(guard.data@ == s0.inner[self.id as int]);
            if guard.data.valid && guard.data.nlink == 0 {
                // inode has no links and no other references: truncate and free
                self.trunc(&mut fs.store, &sb, &mut guard);
                guard.data.typ = InodeType::Free;
                self.update(&mut fs.store, &sb, &guard);
                guard.data.valid = false;
            }
            let ghost d = guard.data@;
            fs.itable.inner[self.id].unlock(guard);
            proof {
                assert(fs@.inner =~= s0.inner.update(self.id as int, d));
                assert(s0.inner.update(self.id as int, s0.inner[self.id as int]) =~= s0.inner);
                assert(fs@.locked =~= s0.locked);
            }
        }
        fs.itable.meta[self.id].refs = refs - 1;
    }

    /// Common idiom: `unlock()`, then `put()`
    pub fn unlock_put(self, fs: &mut Fs, guard: SleepLockGuard<InodeInner>)
        requires
            old(fs).wf(),
            old(fs)@.unlock_put(self, guard.data@) is Some,
        ensures
            final(fs).wf(),
            final(fs)@.sb == old(fs)@.sb,
            Some(final(fs)@) == old(fs)@.unlock_put(self, guard.data@),
    {
        proof {
            reveal(FsState::put);
        }
        self.unlock(fs, guard);
        self.put(fs);
    }

    /// Allocates an inode on device `dev`.
    /// Marks it allocated by giving it type `typ`.
    /// Returns an unlocked but allocated and referenced inode or error.
    pub fn allocate(fs: &mut Fs, dev: u32, typ: InodeType) -> (r: Result<Inode, FsError>)
        requires
            old(fs).wf(),
            old(fs)@.alloc_inode(dev, typ) is Some,
        ensures
            final(fs).wf(),
            final(fs)@.sb == old(fs)@.sb,
            Some((final(fs)@, r)) == old(fs)@.alloc_inode(dev, typ),
    {
        proof {
            reveal(FsState::alloc_inode);
        }
        let ghost s0 = fs@;
        let sb = fs.superblock();
        let mut inum: u32 = 1;
        while inum < sb.ninodes
            invariant
                1 <= inum,
                fs.wf(),
                fs@ == s0,
                s0 == old(fs)@,
                sb == s0.sb,
                s0.alloc_inode(dev, typ) is Some,
                forall|j: u32|
                    1 <= j < inum ==> (#[trigger] s0.on_disk(dev, j)).typ != InodeType::Free,
            decreases sb.ninodes - inum,
        {
            proof {
                reveal(FsState::alloc_inode);
                lemma_alloc_scan(s0, dev, typ, inum);
            }
            let ghost st = fs.store@;
            let mut buf = fs.store.bread(dev, sb.inodestart + inum / IPB);
            let dinode = DiskInode::from_buf(&buf, inum);
            assert(dinode.data() == s0.on_disk(dev, inum));
            if dinode.typ == InodeType::Free {
                proof {
                    assert(s0.free_inum(dev, inum));
                    lemma_free_inum(s0, dev, inum);
                }
                put_u16(buf.data_mut(), (inum % IPB) as usize * DINODESIZE, typ.to_u16());
                log::write(&mut fs.store, &buf);
                fs.store.brelse(buf);
                proof {
                    assert(fs.store@.held =~= st.held);
                }
                return Inode::get(fs, dev, inum);
            }
            fs.store.brelse(buf);
            proof {
                assert(fs.store@.held =~= st.held);
                assert(fs.store@ =~= st);
            }
            inum += 1;
        }
        assert forall|i: u32| !s0.free_inum(dev, i) by {
            if 1 <= i < s0.sb.ninodes {
                assert(s0.on_disk(dev, i).typ != InodeType::Free);
            }
        }
        Err(FsError::OutOfInode)
    }
}

proof fn lemma_free_inum(s: FsState, dev: u32, i: u32)
    requires
        s.free_inum(dev, i),
    ensures
        (choose|i: u32| s.free_inum(dev, i)) == i,
{
    let c = choose|i: u32| s.free_inum(dev, i);
    assert(s.free_inum(dev, c));
    if c < i {
        assert(s.on_disk(dev, c).typ != InodeType::Free);
    }
    if i < c {
        assert(s.on_disk(dev, i).typ != InodeType::Free);
    }
}

/// While no inode before `i` is free, inode `i` can be read.
proof fn lemma_alloc_scan(s: FsState, dev: u32, typ: InodeType, i: u32)
    requires
        s.alloc_inode(dev, typ) is Some,
        1 <= i < s.sb.ninodes,
        forall|j: u32| 1 <= j < i ==> (#[trigger] s.on_disk(dev, j)).typ != InodeType::Free,
    ensures
        s.disk_ok(dev, i),
        s.on_disk(dev, i).typ == InodeType::Free ==> s.store.writable((dev, s.sb.inode_block(i))),
{
    reveal(FsState::alloc_inode);
    if exists|c: u32| s.free_inum(dev, c) {
        let c = choose|c: u32| s.free_inum(dev, c);
        assert(s.free_inum(dev, c));
        if c < i {
            assert(s.on_disk(dev, c).typ != InodeType::Free);
        }
        assert(s.disk_ok(dev, i));
        if s.on_disk(dev, i).typ == InodeType::Free {
            assert(s.free_inum(dev, i));
            lemma_free_inum(s, dev, i);
        }
    } else {
        assert(s.disk_ok(dev, i));
        if s.on_disk(dev, i).typ == InodeType::Free {
            assert(s.free_inum(dev, i));
        }
    }
}

impl FsState {
    /// Beginning an operation on the log; `None` where the caller would have to wait.
    pub open spec fn begin(self) -> Option<FsState> {
        if self.store.can_begin() {
            Some(
                FsState {
                    store: StoreState {
                        outstanding: (self.store.outstanding + 1) as u32,
                        ..self.store
                    },
                    ..self
                },
            )
        } else {
            None
        }
    }

    /// Ending an operation on the log; `None` where none is in progress or a commit cannot run.
    pub open spec fn end(self) -> Option<FsState> {
        if self.store.outstanding > 0 && !self.store.committing && (self.store.outstanding == 1
            ==> self.store.can_commit()) {
            Some(FsState { store: self.store.ended(), ..self })
        } else {
            None
        }
    }

    /// Reclaiming one inode that nothing links to, in an operation of its own.
    pub open spec fn reclaim_one(self, ino: Inode) -> Option<FsState> {
        match self.begin() {
            None => None,
            Some(s1) => match s1.lock(ino) {
                None => None,
                Some((s2, d)) => match s2.unlock(ino, d).put(ino) {
                    None => None,
                    Some(s3) => s3.end(),
                },
            },
        }
    }

    /// Inode `inum` on disk is in use though nothing links to it.
    pub open spec fn orphan(self, dev: u32, inum: u32) -> bool {
        self.on_disk(dev, inum).typ != InodeType::Free && self.on_disk(dev, inum).nlink == 0
    }

    /// Reclaiming the orphans among the inodes from `inum` on.
    pub open spec fn reclaim_from(self, dev: u32, inum: int, ninodes: int) -> Option<FsState>
        decreases ninodes - inum,
    {
        if inum >= ninodes {
            Some(self)
        } else if !self.disk_ok(dev, inum as u32) {
            None
        } else if self.orphan(dev, inum as u32) {
            match self.get(dev, inum as u32) {
                None => None,
                Some((s, Err(e))) => s.reclaim_from(dev, inum + 1, ninodes),
                Some((s, Ok(ino))) => match s.reclaim_one(ino) {
                    None => None,
                    Some(s) => s.reclaim_from(dev, inum + 1, ninodes),
                },
            }
        } else {
            self.reclaim_from(dev, inum + 1, ninodes)
        }
    }
}

impl Fs {
    /// Begins an operation.
    pub fn begin_op(&mut self)
        requires
            old(self).wf(),
            old(self)@.begin() is Some,
        ensures
            final(self).wf(),
            final(self)@.sb == old(self)@.sb,
            Some(final(self)@) == old(self)@.begin(),
    {
        let r = log::begin_op(&mut self.store);
        assert(r is Ok);
    }

    /// Ends an operation.
    pub fn end_op(&mut self)
        requires
            old(self).wf(),
            old(self)@.end() is Some,
        ensures
            final(self).wf(),
            final(self)@.sb == old(self)@.sb,
            Some(final(self)@) == old(self)@.end(),
    {
        let _channel = log::end_op(&mut self.store);
    }

    /// A file system over `store` that is not set up yet.
    pub fn new(store: Store) -> (r: Self)
        ensures
            r.store == store,
            r.sb.value() is None,
            r.itable.meta@.len() == NINODE,
            r.itable.inner@.len() == NINODE,
            r@.meta == Seq::new(NINODE as nat, |i: int| InodeMeta { dev: 0, inum: 0, refs: 0 }),
            r@.inner == Seq::new(NINODE as nat, |i: int| InodeData::empty()),
            r@.locked == Seq::new(NINODE as nat, |i: int| false),
    {
        let r = Fs { store, sb: OnceLock::new(), itable: InodeTable::new() };
        proof {
            assert(r@.meta =~= Seq::new(
                NINODE as nat,
                |i: int| InodeMeta { dev: 0, inum: 0, refs: 0 },
            ));
            assert(r@.inner =~= Seq::new(NINODE as nat, |i: int| InodeData::empty()));
            assert(r@.locked =~= Seq::new(NINODE as nat, |i: int| false));
        }
        r
    }
}

impl Inode {
    /// Reclaims orphaned inodes on device `dev`.
    /// Called at file system initialization.
    pub fn reclaim(fs: &mut Fs, dev: u32)
        requires
            old(fs).wf(),
            old(fs)@.reclaim_from(dev, 1, old(fs)@.sb.ninodes as int) is Some,
        ensures
            final(fs).wf(),
            final(fs)@.sb == old(fs)@.sb,
            Some(final(fs)@) == old(fs)@.reclaim_from(dev, 1, old(fs)@.sb.ninodes as int),
    {
        let sb = fs.superblock();
        let ghost want = fs@.reclaim_from(dev, 1, sb.ninodes as int);
        let mut inum: u32 = 1;
        while inum < sb.ninodes
            invariant
                1 <= inum,
                inum <= sb.ninodes || sb.ninodes < 1,
                fs.wf(),
                fs@.sb == sb,
                want is Some,
                want == fs@.reclaim_from(dev, inum as int, sb.ninodes as int),
            decreases sb.ninodes - inum,
        {
            let ghost s0 = fs@;
            let ghost st = fs.store@;
            let buf = fs.store.bread(dev, sb.inodestart + (inum / IPB));
            let dinode = DiskInode::from_buf(&buf, inum);
            assert(dinode.data() == s0.on_disk(dev, inum));
            fs.store.brelse(buf);
            proof {
                assert(fs.store@.held =~= st.held);
                assert(fs.store@ =~= st);
                assert(fs@ =~= s0);
            }
            if dinode.typ != InodeType::Free && dinode.nlink == 0 {
                // this is an orphaned inode
                match Inode::get(fs, dev, inum) {
                    Ok(inode) => {
                        fs.begin_op();
                        let guard = inode.lock(fs);
                        inode.unlock(fs, guard);
                        inode.put(fs);
                        fs.end_op();
                    },
                    Err(_) => {},
                }
            }
            inum += 1;
        }
    }
}

impl SuperBlock {
    /// Reads the superblock from disk and makes it known to the file system.
    pub fn initialize(fs: &mut Fs, dev: u32)
        requires
            old(fs).store.wf(),
            old(fs).sb.value() is None,
            old(fs)@.store.readable((dev, 1u32)),
            SuperBlock::decode(old(fs)@.store.blocks[(dev, 1u32)]).magic == FSMAGIC,
        ensures
            final(fs).store.wf(),
            final(fs).store.pinned == old(fs).store.pinned,
            final(fs).sb.value() == Some(
                SuperBlock::decode(old(fs)@.store.blocks[(dev, 1u32)]),
            ),
            final(fs).store@ == old(fs).store@,
            final(fs).itable == old(fs).itable,
    {
        let ghost st = fs.store@;
        proof {
            fs.store.lemma_total();
        }
        let buf = fs.store.bread(dev, 1);  // superblock is at block 1
        let sb = SuperBlock::from_bytes(buf.data());
        fs.store.brelse(buf);
        proof {
            assert(fs.store@.held =~= st.held);
            assert(fs.store@ =~= st);
        }
        let read: Result<SuperBlock, FsError> = Ok(sb);
        let f = || -> (r: Result<SuperBlock, FsError>)
            ensures
                r == read,
            {
                read
            };
        fs.sb.initialize(f);
    }
}

/// The state of the file system once the superblock is known and the log is recovered.
pub open spec fn mounted(s: FsState, dev: u32) -> FsState {
    let sb = SuperBlock::decode(s.store.blocks[(dev, 1u32)]);
    FsState {
        store: StoreState {
            blocks: log::recovered(s.store.blocks, dev, sb.logstart),
            logged: seq![],
            start: sb.logstart,
            size: sb.nlogs,
            dev,
            ..s.store
        },
        sb,
        ..s
    }
}

/// The file system on `dev` can be set up.
pub open spec fn can_init(fs: Fs, dev: u32) -> bool {
    let blocks = fs@.store.blocks;
    let sb = SuperBlock::decode(blocks[(dev, 1u32)]);
    let h = blocks[(dev, sb.logstart)];
    &&& fs.store.wf()
    &&& fs.store.pinned@ == Set::<BlockId>::empty()
    &&& fs@.store.held == Set::<BlockId>::empty()
    &&& fs.sb.value() is None
    &&& fs.tables_ok()
    &&& (dev, 1u32) != (0u32, 0u32)
    &&& sb.magic == FSMAGIC
    &&& sb.in_range()
    &&& sb.logstart + sb.nlogs <= u32::MAX
    &&& u32_at(h, 0) <= LOGBLOCKS
    &&& log::installable(dev, sb.logstart, log::header_of(h))
    &&& mounted(fs@, dev).reclaim_from(dev, 1, sb.ninodes as int) is Some
}

/// Initialize the file system: read the superblock, recover the log, and reclaim the inodes that
/// nothing links to.
pub fn init(fs: &mut Fs, dev: u32)
    requires
        can_init(*old(fs), dev),
    ensures
        final(fs).wf(),
        Some(final(fs)@) == mounted(old(fs)@, dev).reclaim_from(
            dev,
            1,
            mounted(old(fs)@, dev).sb.ninodes as int,
        ),
{
    let ghost s0 = fs@;
    SuperBlock::initialize(fs, dev);
    let sb = fs.superblock();
    log::init(&mut fs.store, dev, &sb);
    proof {
        assert(fs@ =~= mounted(s0, dev));
    }
    Inode::reclaim(fs, dev);
}

} // verus!
