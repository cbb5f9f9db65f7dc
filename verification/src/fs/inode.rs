//! Inodes: where the contents of files are.
use vstd::prelude::*;
use crate::buf::Buf;
use crate::fs::block::Block;
use crate::fs::{FsError, SuperBlock, DINODESIZE, IPB, MAXFILE, NADDRS, NDIRECT, NINDIRECT};
use crate::le::{
    get_u16,
    get_u32,
    lemma_splice_append,
    lemma_u16_at,
    lemma_u32_at,
    lemma_words_at,
    push_u16,
    push_u32,
    push_u64,
    put_u16,
    put_u32,
    splice,
    u16_at,
    u16_bytes,
    u32_at,
    u32_bytes,
    u64_bytes,
    words,
};
use crate::log;
use crate::log::{Store, StoreState};
use crate::sleeplock::SleepLockGuard;
use crate::virtio_disk::{BlockId, BSIZE};

verus! {

/// Inode types
#[derive(Debug, Clone, Copy, PartialEq, Eq, Structural)]
pub enum InodeType {
    Free,
    Directory,
    File,
    Device,
}

impl Default for InodeType {
    fn default() -> (r: Self)
        ensures
            r == InodeType::Free,
    {
        InodeType::Free
    }
}

impl InodeType {
    /// The number that stands for the type on disk.
    pub open spec fn code(self) -> u16 {
        match self {
            InodeType::Free => 0,
            InodeType::Directory => 1,
            InodeType::File => 2,
            InodeType::Device => 3,
        }
    }

    /// The type that the number `c` stands for.
    pub open spec fn of(c: u16) -> InodeType {
        if c == 0 {
            InodeType::Free
        } else if c == 1 {
            InodeType::Directory
        } else if c == 2 {
            InodeType::File
        } else {
            InodeType::Device
        }
    }

    /// The number that stands for the type on disk.
    pub fn to_u16(self) -> (r: u16)
        ensures
            r == self.code(),
    {
        match self {
            InodeType::Free => 0,
            InodeType::Directory => 1,
            InodeType::File => 2,
            InodeType::Device => 3,
        }
    }

    /// The type that the number `c` stands for.
    pub fn from_u16(c: u16) -> (r: Self)
        requires
            c <= 3,
        ensures
            r == Self::of(c),
    {
        if c == 0 {
            InodeType::Free
        } else if c == 1 {
            InodeType::Directory
        } else if c == 2 {
            InodeType::File
        } else {
            InodeType::Device
        }
    }
}

/// What an inode says, as a value.
#[verifier::ext_equal]
pub struct InodeData {
    pub valid: bool,
    pub typ: InodeType,
    pub major: u16,
    pub minor: u16,
    pub nlink: u16,
    pub size: u32,
    pub addrs: Seq<u32>,
}

/// On-disk inode structure
#[derive(Debug, Clone, Copy)]
pub struct DiskInode {
    /// File type
    pub typ: InodeType,
    /// Major device number
    pub major: u16,
    /// Minor device number
    pub minor: u16,
    /// Number of links to inode in file system
    pub nlink: u16,
    /// Size of file (bytes)
    pub size: u32,
    /// Data block addresses
    pub addrs: [u32; NADDRS],
}

/// The bytes of an inode on disk.
pub open spec fn dinode_bytes(d: InodeData) -> Seq<u8> {
    u16_bytes(d.typ.code()) + u16_bytes(d.major) + u16_bytes(d.minor) + u16_bytes(d.nlink)
        + u32_bytes(d.size) + words(d.addrs)
}

/// Where inode `inum` is in its block.
pub open spec fn dinode_offset(inum: u32) -> int {
    (inum % IPB) * DINODESIZE
}

/// The type field of inode `inum` in its block `b` is a type.
pub open spec fn dinode_ok(b: Seq<u8>, inum: u32) -> bool {
    u16_at(b, dinode_offset(inum)) <= 3
}

/// Inode `inum` in its block `b`.
pub open spec fn dinode_at(b: Seq<u8>, inum: u32) -> InodeData {
    let off = dinode_offset(inum);
    InodeData {
        valid: true,
        typ: InodeType::of(u16_at(b, off)),
        major: u16_at(b, off + 2),
        minor: u16_at(b, off + 4),
        nlink: u16_at(b, off + 6),
        size: u32_at(b, off + 8),
        addrs: Seq::new(NADDRS as nat, |i: int| u32_at(b, off + 12 + 4 * i)),
    }
}

/// An inode reads back as it was written.
pub proof fn lemma_dinode_roundtrip(b: Seq<u8>, inum: u32, d: InodeData)
    requires
        b.len() == BSIZE,
        d.addrs.len() == NADDRS,
    ensures
        dinode_ok(splice(b, dinode_offset(inum), dinode_bytes(d)), inum),
        dinode_at(splice(b, dinode_offset(inum), dinode_bytes(d)), inum) == (InodeData {
            valid: true,
            ..d
        }),
{
    let off = dinode_offset(inum);
    let s = splice(b, off, dinode_bytes(d));
    assert(0 <= off && off + 64 <= BSIZE);
    assert(s.subrange(off, off + 64) =~= dinode_bytes(d));
    assert(s.subrange(off, off + 2) =~= u16_bytes(d.typ.code()));
    assert(s.subrange(off + 2, off + 4) =~= u16_bytes(d.major));
    assert(s.subrange(off + 4, off + 6) =~= u16_bytes(d.minor));
    assert(s.subrange(off + 6, off + 8) =~= u16_bytes(d.nlink));
    assert(s.subrange(off + 8, off + 12) =~= u32_bytes(d.size));
    assert(s.subrange(off + 12, off + 64) =~= words(d.addrs));
    lemma_u16_at(s, off, d.typ.code());
    lemma_u16_at(s, off + 2, d.major);
    lemma_u16_at(s, off + 4, d.minor);
    lemma_u16_at(s, off + 6, d.nlink);
    lemma_u32_at(s, off + 8, d.size);
    assert forall|i: int| 0 <= i < NADDRS implies u32_at(s, off + 12 + 4 * i) == d.addrs[i] by {
        lemma_words_at(s, off + 12, d.addrs, i);
    }
    assert(dinode_at(s, inum).addrs =~= d.addrs);
}

impl DiskInode {
    /// What the inode says.
    pub open spec fn data(self) -> InodeData {
        InodeData {
            valid: true,
            typ: self.typ,
            major: self.major,
            minor: self.minor,
            nlink: self.nlink,
            size: self.size,
            addrs: self.addrs@,
        }
    }

    /// Returns the `DiskInode` with number `inum` in the given buffer.
    ///
    /// The caller must ensure that `buf` contains the block that holds the inode with number
    /// `inum`.
    pub fn from_buf(buf: &Buf, inum: u32) -> (r: Self)
        requires
            dinode_ok(buf.bytes(), inum),
        ensures
            r.data() == dinode_at(buf.bytes(), inum),
    {
        Self::from_block(buf.data(), inum)
    }

    /// Returns the `DiskInode` with number `inum` in the given block.
    pub fn from_block(b: &[u8; BSIZE], inum: u32) -> (r: Self)
        requires
            dinode_ok(b@, inum),
        ensures
            r.data() == dinode_at(b@, inum),
    {
        let off = (inum % IPB) as usize * DINODESIZE;
        let mut addrs = [0u32;NADDRS];
        let mut i: usize = 0;
        while i < NADDRS
            invariant
                i <= NADDRS,
                b@.len() == BSIZE,
                off == dinode_offset(inum),
                off + DINODESIZE <= BSIZE,
                forall|j: int| 0 <= j < i ==> #[trigger] addrs@[j] == u32_at(b@, off + 12 + 4 * j),
            decreases NADDRS - i,
        {
            addrs[i] = get_u32(b, off + 12 + 4 * i);
            i += 1;
        }
        let r = DiskInode {
            typ: InodeType::from_u16(get_u16(b, off)),
            major: get_u16(b, off + 2),
            minor: get_u16(b, off + 4),
            nlink: get_u16(b, off + 6),
            size: get_u32(b, off + 8),
            addrs,
        };
        assert(r.data().addrs =~= dinode_at(b@, inum).addrs);
        r
    }

    /// Stores the inode as number `inum` in the given buffer.
    pub fn to_buf(&self, buf: &mut Buf, inum: u32)
        ensures
            final(buf).bytes() == splice(
                old(buf).bytes(),
                dinode_offset(inum),
                dinode_bytes(self.data()),
            ),
            final(buf).id == old(buf).id,
            final(buf).block == old(buf).block,
    {
        self.to_block(buf.data_mut(), inum);
    }

    /// Stores the inode as number `inum` in the given block.
    pub fn to_block(&self, b: &mut [u8; BSIZE], inum: u32)
        ensures
            final(b)@ == splice(old(b)@, dinode_offset(inum), dinode_bytes(self.data())),
    {
        let ghost b0 = b@;
        let off = (inum % IPB) as usize * DINODESIZE;
        let ghost d = self.data();
        put_u16(b, off, self.typ.to_u16());
        let ghost p1 = u16_bytes(d.typ.code());
        put_u16(b, off + 2, self.major);
        let ghost p2 = p1 + u16_bytes(d.major);
        proof {
            lemma_splice_append(b0, off as int, p1, u16_bytes(d.major));
        }
        put_u16(b, off + 4, self.minor);
        let ghost p3 = p2 + u16_bytes(d.minor);
        proof {
            lemma_splice_append(b0, off as int, p2, u16_bytes(d.minor));
        }
        put_u16(b, off + 6, self.nlink);
        let ghost p4 = p3 + u16_bytes(d.nlink);
        proof {
            lemma_splice_append(b0, off as int, p3, u16_bytes(d.nlink));
        }
        put_u32(b, off + 8, self.size);
        let ghost p5 = p4 + u32_bytes(d.size);
        proof {
            lemma_splice_append(b0, off as int, p4, u32_bytes(d.size));
            assert(p5 + words(d.addrs.take(0)) =~= p5);
        }
        let mut i: usize = 0;
        while i < NADDRS
            invariant
                i <= NADDRS,
                off + DINODESIZE <= BSIZE,
                d == self.data(),
                p5.len() == 12,
                b@ == splice(b0, off as int, p5 + words(d.addrs.take(i as int))),
            decreases NADDRS - i,
        {
            put_u32(b, off + 12 + 4 * i, self.addrs[i]);
            proof {
                let w = words(d.addrs.take(i as int));
                lemma_splice_append(b0, off as int, p5 + w, u32_bytes(d.addrs[i as int]));
                lemma_words_push(d.addrs.take(i as int), d.addrs[i as int]);
                assert(d.addrs.take(i + 1) =~= d.addrs.take(i as int).push(d.addrs[i as int]));
                assert(p5 + w + u32_bytes(d.addrs[i as int]) =~= p5 + words(d.addrs.take(i + 1)));
            }
            i += 1;
        }
        proof {
            assert(d.addrs.take(NADDRS as int) =~= d.addrs);
        }
    }
}

/// The bytes of a number come after those of the numbers before it.
pub proof fn lemma_words_push(hs: Seq<u32>, v: u32)
    ensures
        words(hs.push(v)) == words(hs) + u32_bytes(v),
{
    assert forall|j: int| 0 <= j < 4 * hs.len() + 4 implies words(hs.push(v))[j] == (words(hs)
        + u32_bytes(v))[j] by {
        if j >= 4 * hs.len() {
            assert(j / 4 == hs.len());
        } else {
            assert(j / 4 < hs.len());
        }
    }
    assert(words(hs.push(v)) =~= words(hs) + u32_bytes(v));
}

/// Information about a file
#[derive(Debug, Clone, Copy, PartialEq, Eq, Structural)]
pub struct Stat {
    pub dev: u32,
    pub ino: u32,
    pub typ: InodeType,
    pub nlink: u16,
    pub size: u64,
}

impl Stat {
    /// How the information is laid out for the process that asked for it.
    pub open spec fn bytes(self) -> Seq<u8> {
        u32_bytes(self.dev) + u32_bytes(self.ino) + u16_bytes(self.typ.code()) + u16_bytes(
            self.nlink,
        ) + u32_bytes(0) + u64_bytes(self.size)
    }

    pub fn as_bytes(&self) -> (r: Vec<u8>)
        ensures
            r@ == self.bytes(),
    {
        let mut bytes: Vec<u8> = Vec::new();
        push_u32(&mut bytes, self.dev);
        assert(bytes@ =~= u32_bytes(self.dev));
        push_u32(&mut bytes, self.ino);
        push_u16(&mut bytes, self.typ.to_u16());
        push_u16(&mut bytes, self.nlink);
        push_u32(&mut bytes, 0);
        push_u64(&mut bytes, self.size);
        bytes
    }
}

/// Cached inode data, protected by sleeplock
#[derive(Debug, Clone, Copy)]
pub struct InodeInner {
    /// Indicates whether inode has been read from disk
    pub valid: bool,
    pub typ: InodeType,
    pub major: u16,
    pub minor: u16,
    pub nlink: u16,
    pub size: u32,
    pub addrs: [u32; NADDRS],
}

impl View for InodeInner {
    type V = InodeData;

    open spec fn view(&self) -> InodeData {
        InodeData {
            valid: self.valid,
            typ: self.typ,
            major: self.major,
            minor: self.minor,
            nlink: self.nlink,
            size: self.size,
            addrs: self.addrs@,
        }
    }
}

impl InodeData {
    /// Nothing was read from disk yet.
    pub open spec fn empty() -> InodeData {
        InodeData {
            valid: false,
            typ: InodeType::Free,
            major: 0,
            minor: 0,
            nlink: 0,
            size: 0,
            addrs: Seq::new(NADDRS as nat, |i: int| 0u32),
        }
    }
}

impl InodeInner {
    /// Nothing was read from disk yet.
    pub fn new() -> (r: Self)
        ensures
            r@ == InodeData::empty(),
    {
        let r = InodeInner {
            valid: false,
            typ: InodeType::Free,
            major: 0,
            minor: 0,
            nlink: 0,
            size: 0,
            addrs: [0u32;NADDRS],
        };
        assert(r@.addrs =~= InodeData::empty().addrs);
        r
    }
}

/// In-memory inode structure
/// `id` is the index to the actual data in the inode table.
/// Also holds device and inode numbers for quick lookup.
#[derive(Debug, Clone, Copy, PartialEq, Eq, Structural)]
pub struct Inode {
    /// Inode table index
    pub id: usize,
    /// Device number
    pub dev: u32,
    /// Inode number
    pub inum: u32,
}

/// The block addresses in an indirect block.
pub open spec fn indirect(b: Seq<u8>) -> Seq<u32> {
    Seq::new(NINDIRECT as nat, |i: int| u32_at(b, 4 * i))
}

impl StoreState {
    /// The state with the buffer of `id` given back.
    pub open spec fn release(self, id: BlockId) -> StoreState {
        StoreState { held: self.held.remove(id), ..self }
    }

    /// The block of inode `inum` can be read.
    pub open spec fn inode_readable(self, sb: SuperBlock, dev: u32, inum: u32) -> bool {
        sb.inodestart + inum / IPB <= u32::MAX && self.readable((dev, sb.inode_block(inum)))
    }

    /// Writing `d` as inode `inum`; `None` where it cannot be done.
    pub open spec fn update_inode(
        self,
        sb: SuperBlock,
        dev: u32,
        inum: u32,
        d: InodeData,
    ) -> Option<StoreState> {
        let id = (dev, sb.inode_block(inum));
        if self.inode_readable(sb, dev, inum) && self.writable(id) {
            Some(
                self.write(id, splice(self.blocks[id], dinode_offset(inum), dinode_bytes(d))),
            )
        } else {
            None
        }
    }

    /// Finding the address of the `bn`th block of the file `d`, allocating it if necessary.
    /// `None` where a block that is needed is in use or the transaction has no room.
    pub open spec fn map_block(self, sb: SuperBlock, dev: u32, d: InodeData, bn: u32) -> Option<
        (StoreState, InodeData, Result<u32, FsError>),
    > {
        if bn < NDIRECT {
            self.map_slot(sb, dev, d, bn as int)
        } else if bn < MAXFILE {
            match self.map_slot(sb, dev, d, NDIRECT as int) {
                None => None,
                Some((s, d, Err(e))) => Some((s, d, Err(e))),
                Some((s, d, Ok(ib))) => s.map_indirect(sb, dev, d, ib, bn - NDIRECT),
            }
        } else {
            Some((self, d, Err(FsError::OutOfRange)))
        }
    }

    /// The address in place `i` of the inode, allocated if there is none.
    pub open spec fn map_slot(self, sb: SuperBlock, dev: u32, d: InodeData, i: int) -> Option<
        (StoreState, InodeData, Result<u32, FsError>),
    > {
        if d.addrs[i] != 0 {
            Some((self, d, Ok(d.addrs[i])))
        } else {
            match self.alloc_block(sb, dev) {
                None => None,
                Some((s, Err(e))) => Some((s, d, Err(e))),
                Some((s, Ok(b))) => Some(
                    (s, InodeData { addrs: d.addrs.update(i, b.0), ..d }, Ok(b.0)),
                ),
            }
        }
    }

    /// The address in place `k` of the indirect block `ib`, allocated if there is none.
    pub open spec fn map_indirect(
        self,
        sb: SuperBlock,
        dev: u32,
        d: InodeData,
        ib: u32,
        k: int,
    ) -> Option<(StoreState, InodeData, Result<u32, FsError>)> {
        let id = (dev, ib);
        let a = u32_at(self.blocks[id], 4 * k);
        if !self.readable(id) {
            None
        } else if a != 0 {
            Some((self, d, Ok(a)))
        } else {
            match self.hold(id).alloc_block(sb, dev) {
                None => None,
                Some((s, Err(e))) => Some((s.release(id), d, Err(e))),
                Some((s, Ok(b))) => if s.writable(id) {
                    Some(
                        (
                            s.release(id).write(
                                id,
                                splice(self.blocks[id], 4 * k, u32_bytes(b.0)),
                            ),
                            d,
                            Ok(b.0),
                        ),
                    )
                } else {
                    None
                },
            }
        }
    }

    /// Freeing the blocks `addrs`, but for zeros; `None` where it cannot be done.
    pub open spec fn free_all(self, sb: SuperBlock, dev: u32, addrs: Seq<u32>) -> Option<StoreState>
        decreases addrs.len(),
    {
        if addrs.len() == 0 {
            Some(self)
        } else if addrs[0] == 0 {
            self.free_all(sb, dev, addrs.skip(1))
        } else {
            match self.free_block(sb, dev, addrs[0]) {
                None => None,
                Some(s) => s.free_all(sb, dev, addrs.skip(1)),
            }
        }
    }

    /// Freeing the indirect block `ib` and the blocks in it, if there is one.
    pub open spec fn free_indirect(self, sb: SuperBlock, dev: u32, ib: u32) -> Option<StoreState> {
        let id = (dev, ib);
        if ib == 0 {
            Some(self)
        } else if !self.readable(id) {
            None
        } else {
            match self.hold(id).free_all(sb, dev, indirect(self.blocks[id])) {
                None => None,
                Some(s) => s.release(id).free_block(sb, dev, ib),
            }
        }
    }

    /// Discarding the contents of the file `d`; `None` where it cannot be done.
    pub open spec fn trunc_inode(self, sb: SuperBlock, dev: u32, inum: u32, d: InodeData) -> Option<
        (StoreState, InodeData),
    > {
        let e = InodeData { size: 0, addrs: InodeData::empty().addrs, ..d };
        match self.free_all(sb, dev, d.addrs.take(NDIRECT as int)) {
            None => None,
            Some(s1) => match s1.free_indirect(sb, dev, d.addrs[NDIRECT as int]) {
                None => None,
                Some(s2) => match s2.update_inode(sb, dev, inum, e) {
                    None => None,
                    Some(s3) => Some((s3, e)),
                },
            },
        }
    }

    /// Reading `n` bytes at `offset` of the file `d` after the bytes `acc`, block by block. Ends
    /// early where a block cannot be mapped; `None` where a block is in use.
    pub open spec fn read_bytes(
        self,
        sb: SuperBlock,
        dev: u32,
        d: InodeData,
        offset: int,
        n: int,
        acc: Seq<u8>,
    ) -> Option<(StoreState, InodeData, Seq<u8>)>
        decreases n,
    {
        if n <= 0 {
            Some((self, d, acc))
        } else {
            let o = offset % (BSIZE as int);
            let m = chunk(offset, n);
            match self.map_block(sb, dev, d, (offset / (BSIZE as int)) as u32) {
                None => None,
                Some((s, d, Err(e))) => Some((s, d, acc)),
                Some((s, d, Ok(addr))) => if s.readable((dev, addr)) {
                    s.read_bytes(
                        sb,
                        dev,
                        d,
                        offset + m,
                        n - m,
                        acc + s.blocks[(dev, addr)].subrange(o, o + m),
                    )
                } else {
                    None
                },
            }
        }
    }

    /// Reading `n` bytes at `offset` of the file `d`: what is there up to the end of the file.
    pub open spec fn read_inode(self, sb: SuperBlock, dev: u32, d: InodeData, offset: u32, n: u32) -> Option<
        (StoreState, InodeData, Result<Seq<u8>, FsError>),
    > {
        if offset > d.size || offset + n > u32::MAX {
            Some((self, d, Err(FsError::Read)))
        } else {
            let n = if offset + n > d.size {
                d.size - offset
            } else {
                n as int
            };
            match self.read_bytes(sb, dev, d, offset as int, n, seq![]) {
                None => None,
                Some((s, d, bytes)) => Some((s, d, Ok(bytes))),
            }
        }
    }

    /// Writing `src` at `offset` of the file `d`, block by block; gives the offset after the last
    /// byte written. Ends early where a block cannot be mapped; `None` where a block is in use or
    /// the transaction has no room.
    pub open spec fn write_bytes(
        self,
        sb: SuperBlock,
        dev: u32,
        d: InodeData,
        offset: int,
        src: Seq<u8>,
    ) -> Option<(StoreState, InodeData, int)>
        decreases src.len(),
    {
        if src.len() == 0 {
            Some((self, d, offset))
        } else {
            let m = chunk(offset, src.len() as int);
            match self.map_block(sb, dev, d, (offset / (BSIZE as int)) as u32) {
                None => None,
                Some((s, d, Err(e))) => Some((s, d, offset)),
                Some((s, d, Ok(addr))) => if s.readable((dev, addr)) && s.writable((dev, addr)) {
                    s.write(
                        (dev, addr),
                        splice(s.blocks[(dev, addr)], offset % (BSIZE as int), src.take(m)),
                    ).write_bytes(sb, dev, d, offset + m, src.skip(m))
                } else {
                    None
                },
            }
        }
    }

    /// Writing `src` at `offset` of the file `d`, whose inode is written too.
    pub open spec fn write_inode(
        self,
        sb: SuperBlock,
        dev: u32,
        inum: u32,
        d: InodeData,
        offset: u32,
        src: Seq<u8>,
    ) -> Option<(StoreState, InodeData, Result<u32, FsError>)> {
        if offset > d.size || offset + src.len() > MAXFILE * BSIZE {
            Some((self, d, Err(FsError::Write)))
        } else {
            match self.write_bytes(sb, dev, d, offset as int, src) {
                None => None,
                Some((s, d, end)) => {
                    let d = InodeData {
                        size: if end > d.size {
                            end as u32
                        } else {
                            d.size
                        },
                        ..d
                    };
                    match s.update_inode(sb, dev, inum, d) {
                        None => None,
                        Some(s) => Some((s, d, Ok((end - offset) as u32))),
                    }
                },
            }
        }
    }
}

/// How many of `n` bytes at `offset` lie in one block.
pub open spec fn chunk(offset: int, n: int) -> int {
    let room = BSIZE - offset % (BSIZE as int);
    if n < room {
        n
    } else {
        room
    }
}

/// Allocating a block leaves the blocks in use alone.
proof fn lemma_alloc_frame(s: StoreState, sb: SuperBlock, dev: u32, id: BlockId)
    requires
        s.held.contains(id),
        s.alloc_block(sb, dev) is Some,
    ensures
        (s.alloc_block(sb, dev)->0).0.blocks[id] == s.blocks[id],
        (s.alloc_block(sb, dev)->0).0.held == s.held,
{
    if exists|b: u32| s.first_free(sb, dev, b) {
        let b = choose|b: u32| s.first_free(sb, dev, b);
        assert(s.readable((dev, sb.bitmap_block(b))));
    }
}

impl Inode {
    pub fn new(id: usize, dev: u32, inum: u32) -> (r: Self)
        ensures
            r == (Inode { id, dev, inum }),
    {
        Inode { id, dev, inum }
    }

    /// Copies a modified in-memory inode to disk.
    /// Must be called after every change to an `Inode` field that lives on disk.
    pub fn update(&self, store: &mut Store, sb: &SuperBlock, inner: &SleepLockGuard<InodeInner>)
        requires
            old(store).wf(),
            old(store)@.update_inode(*sb, self.dev, self.inum, inner.data@) is Some,
        ensures
            final(store).wf(),
            final(store).slots() == old(store).slots(),
            Some(final(store)@) == old(store)@.update_inode(
                *sb,
                self.dev,
                self.inum,
                inner.data@,
            ),
    {
        let ghost s0 = *store;
        let mut buf = store.bread(self.dev, sb.inodestart + (self.inum / IPB));
        let dinode = DiskInode {
            typ: inner.data.typ,
            major: inner.data.major,
            minor: inner.data.minor,
            nlink: inner.data.nlink,
            size: inner.data.size,
            addrs: inner.data.addrs,
        };
        dinode.to_buf(&mut buf, self.inum);
        assert(dinode_bytes(dinode.data()) == dinode_bytes(inner.data@));
        log::write(store, &buf);
        store.brelse(buf);
        proof {
            assert(store@.held =~= s0@.held);
            assert(store.slots().dom() =~= s0.slots().dom());
        }
    }

    /// Returns the disk block address of the nth block in `inode`.
    /// If there is no such block, allocates one.
    pub fn map(
        &self,
        store: &mut Store,
        sb: &SuperBlock,
        inner: &mut SleepLockGuard<InodeInner>,
        block_no: u32,
    ) -> (r: Result<u32, FsError>)
        requires
            old(store).wf(),
            sb.in_range(),
            old(store)@.map_block(*sb, self.dev, old(inner).data@, block_no) is Some,
        ensures
            final(store).wf(),
            final(store).slots() == old(store).slots(),
            Some((final(store)@, final(inner).data@, r)) == old(store)@.map_block(
                *sb,
                self.dev,
                old(inner).data@,
                block_no,
            ),
    {
        let slot: usize = if (block_no as usize) < NDIRECT {
            block_no as usize
        } else if (block_no as usize) < MAXFILE {
            NDIRECT
        } else {
            return Err(FsError::OutOfRange);
        };
        let mut addr: u32 = inner.data.addrs[slot];
        if addr == 0 {
            match Block::allocate(store, sb, self.dev) {
                Ok(block) => {
                    addr = block.0;
                    inner.data.addrs[slot] = addr;
                },
                Err(e) => {
                    return Err(e);
                },
            }
        }
        if (block_no as usize) < NDIRECT {
            return Ok(addr);
        }
        let k: usize = block_no as usize - NDIRECT;
        let ghost s1 = *store;
        let ghost id = (self.dev, addr);
        assert(s1@.map_indirect(*sb, self.dev, inner.data@, addr, k as int) is Some);
        proof {
            store.lemma_total();
        }
        let mut buf = store.bread(self.dev, addr);
        let entry = get_u32(buf.data(), 4 * k);
        if entry != 0 {
            store.brelse(buf);
            proof {
                assert(store@.held =~= s1@.held);
                assert(store.slots() =~= s1.slots());
                assert(store@ =~= s1@);
            }
            return Ok(entry);
        }
        let ghost s2 = *store;
        proof {
            lemma_alloc_frame(s2@, *sb, self.dev, id);
        }
        match Block::allocate(store, sb, self.dev) {
            Ok(block) => {
                put_u32(buf.data_mut(), 4 * k, block.0);
                log::write(store, &buf);
                store.brelse(buf);
                proof {
                    assert(store@.held =~= s1@.held);
                    assert(store.slots() =~= s1.slots());
                }
                Ok(block.0)
            },
            Err(e) => {
                store.brelse(buf);
                proof {
                    assert(store@.held =~= s1@.held);
                    assert(store.slots() =~= s1.slots());
                }
                Err(e)
            },
        }
    }
}

/// Freeing blocks leaves the blocks in use alone.
proof fn lemma_free_frame(s: StoreState, sb: SuperBlock, dev: u32, b: u32, id: BlockId)
    requires
        s.held.contains(id),
        s.free_block(sb, dev, b) is Some,
    ensures
        (s.free_block(sb, dev, b)->0).blocks[id] == s.blocks[id],
        (s.free_block(sb, dev, b)->0).held == s.held,
{
}

/// Copies `m` bytes of `src` at `from` to `dst` at `at`.
pub fn copy_bytes(dst: &mut [u8], at: usize, src: &[u8], from: usize, m: usize)
    requires
        at + m <= old(dst)@.len(),
        from + m <= src@.len(),
    ensures
        final(dst)@ == splice(old(dst)@, at as int, src@.subrange(from as int, from + m)),
{
    let mut i: usize = 0;
    let ghost d0 = dst@;
    while i < m
        invariant
            i <= m,
            at + m <= dst@.len(),
            dst@.len() == d0.len(),
            from + m <= src@.len(),
            dst@ == splice(d0, at as int, src@.subrange(from as int, from + i)),
        decreases m - i,
    {
        assert(at + m <= dst.len());
        assert(from + m <= src.len());
        dst[at + i] = src[from + i];
        i += 1;
        assert(dst@ =~= splice(d0, at as int, src@.subrange(from as int, from + i)));
    }
}

impl Inode {
    /// Truncates inode (discard contents).
    pub fn trunc(
        &self,
        store: &mut Store,
        sb: &SuperBlock,
        inner: &mut SleepLockGuard<InodeInner>,
    )
        requires
            old(store).wf(),
            old(store)@.trunc_inode(*sb, self.dev, self.inum, old(inner).data@) is Some,
        ensures
            final(store).wf(),
            final(store).slots() == old(store).slots(),
            Some((final(store)@, final(inner).data@)) == old(store)@.trunc_inode(
                *sb,
                self.dev,
                self.inum,
                old(inner).data@,
            ),
    {
        let ghost s0 = *store;
        let ghost d0 = inner.data@;
        let ghost direct = d0.addrs.take(NDIRECT as int);
        let mut i: usize = 0;
        proof {
            assert(direct.skip(0) =~= direct);
        }
        while i < NDIRECT
            invariant
                i <= NDIRECT,
                store.wf(),
                store.slots() == s0.slots(),
                direct == d0.addrs.take(NDIRECT as int),
                d0.addrs.len() == NADDRS,
                s0@.free_all(*sb, self.dev, direct) is Some,
                s0@.free_all(*sb, self.dev, direct) == store@.free_all(
                    *sb,
                    self.dev,
                    direct.skip(i as int),
                ),
                inner.data@ == (InodeData { addrs: inner.data@.addrs, ..d0 }),
                inner.data@.addrs.len() == NADDRS,
                forall|j: int| 0 <= j < i ==> inner.data@.addrs[j] == 0,
                forall|j: int| i <= j < NADDRS ==> inner.data@.addrs[j] == d0.addrs[j],
            decreases NDIRECT - i,
        {
            assert(direct.skip(i as int)[0] == d0.addrs[i as int]);
            assert(direct.skip(i as int).skip(1) =~= direct.skip(i + 1));
            if inner.data.addrs[i] != 0 {
                let block = Block(inner.data.addrs[i]);
                block.free(store, sb, self.dev);
                inner.data.addrs[i] = 0;
            }
            i += 1;
        }
        let ib = inner.data.addrs[NDIRECT];
        let ghost s1 = *store;
        proof {
            assert(direct.skip(NDIRECT as int).len() == 0);
            assert(s0@.free_all(*sb, self.dev, direct) == Some(s1@));
        }
        if ib != 0 {
            let ghost id = (self.dev, ib);
            proof {
                store.lemma_total();
            }
            let buf = store.bread(self.dev, ib);
            let ghost s2 = *store;
            let ghost list = indirect(buf.bytes());
            let mut k: usize = 0;
            proof {
                assert(list.skip(0) =~= list);
                assert(s2@ == s1@.hold(id));
            }
            while k < NINDIRECT
                invariant
                    k <= NINDIRECT,
                    store.wf(),
                    store.slots() == s2.slots(),
                    list == indirect(buf.bytes()),
                    buf.bytes().len() == BSIZE,
                    s2@.free_all(*sb, self.dev, list) is Some,
                    s2@.free_all(*sb, self.dev, list) == store@.free_all(
                        *sb,
                        self.dev,
                        list.skip(k as int),
                    ),
                    store@.held == s2@.held,
                    s2@.held.contains(id),
                    id == (self.dev, ib),
                    buf.bytes() == store@.blocks[id],
                decreases NINDIRECT - k,
            {
                assert(list.skip(k as int)[0] == list[k as int]);
                assert(list.skip(k as int).skip(1) =~= list.skip(k + 1));
                let b = get_u32(buf.data(), 4 * k);
                if b != 0 {
                    proof {
                        lemma_free_frame(store@, *sb, self.dev, b, id);
                    }
                    Block(b).free(store, sb, self.dev);
                }
                k += 1;
            }
            proof {
                assert(list.skip(NINDIRECT as int).len() == 0);
                assert(s2@.free_all(*sb, self.dev, list) == Some(store@));
                assert(s1@.free_indirect(*sb, self.dev, ib) is Some);
            }
            let ghost s3 = *store;
            store.brelse(buf);
            proof {
                assert(store@ =~= s3@.release(id));
                assert(store.slots() =~= s1.slots());
            }
            Block(ib).free(store, sb, self.dev);
            inner.data.addrs[NDIRECT] = 0;
        }
        inner.data.size = 0;
        proof {
            assert(inner.data@.addrs =~= InodeData::empty().addrs);
        }
        self.update(store, sb, inner);
    }

    /// Information about the file.
    pub fn stat(&self, inner: &SleepLockGuard<InodeInner>) -> (r: Stat)
        ensures
            r == (Stat {
                dev: self.dev,
                ino: self.inum,
                typ: inner.data.typ,
                nlink: inner.data.nlink,
                size: inner.data.size as u64,
            }),
    {
        Stat {
            dev: self.dev,
            typ: inner.data.typ,
            nlink: inner.data.nlink,
            size: inner.data.size as u64,
            ino: self.inum,
        }
    }

    /// Reads data from inode into `dst`: as many bytes as `dst` has room for and the file has
    /// from `offset` on. Returns their number.
    pub fn read(
        &self,
        store: &mut Store,
        sb: &SuperBlock,
        inner: &mut SleepLockGuard<InodeInner>,
        offset: u32,
        dst: &mut [u8],
    ) -> (r: Result<u32, FsError>)
        requires
            old(store).wf(),
            sb.in_range(),
            old(dst)@.len() <= u32::MAX,
            old(store)@.read_inode(
                *sb,
                self.dev,
                old(inner).data@,
                offset,
                old(dst)@.len() as u32,
            ) is Some,
        ensures
            final(store).wf(),
            final(store).slots() == old(store).slots(),
            ({
                let (s, d, bytes) = old(store)@.read_inode(
                    *sb,
                    self.dev,
                    old(inner).data@,
                    offset,
                    old(dst)@.len() as u32,
                )->0;
                &&& final(store)@ == s
                &&& final(inner).data@ == d
                &&& match bytes {
                    Ok(bytes) => r == Ok::<u32, FsError>(bytes.len() as u32) && bytes.len() <= old(
                        dst,
                    )@.len() && final(dst)@ == splice(old(dst)@, 0, bytes),
                    Err(e) => r == Err::<u32, FsError>(e) && final(dst)@ == old(dst)@,
                }
            }),
    {
        let ghost s0 = *store;
        let ghost d0 = inner.data@;
        let ghost dst0 = dst@;
        let size = inner.data.size;
        let mut n: u32 = dst.len() as u32;
        if offset > size || offset.checked_add(n).is_none() {
            return Err(FsError::Read);
        }
        if offset + n > size {
            n = size - offset;
        }
        let mut total: u32 = 0;
        let ghost mut acc: Seq<u8> = seq![];
        let ghost want = s0@.read_bytes(*sb, self.dev, d0, offset as int, n as int, seq![]);
        proof {
            assert(splice(dst0, 0, acc) =~= dst0);
        }
        while total < n
            invariant_except_break
                want == store@.read_bytes(
                    *sb,
                    self.dev,
                    inner.data@,
                    offset + total,
                    n - total,
                    acc,
                ),
            invariant
                want is Some,
                total <= n,
                offset + n <= u32::MAX,
                n <= dst0.len(),
                dst@.len() == dst0.len(),
                store.wf(),
                store.slots() == s0.slots(),
                sb.in_range(),
                acc.len() == total,
                dst@ == splice(dst0, 0, acc),
            ensures
                want == Some((store@, inner.data@, acc)),
            decreases n - total,
        {
            let off = offset + total;
            match self.map(store, sb, inner, off / BSIZE as u32) {
                Ok(addr) => {
                    let ghost s1 = *store;
                    proof {
                        store.lemma_total();
                    }
                    let buf = store.bread(self.dev, addr);
                    let o: u32 = off % BSIZE as u32;
                    let room: u32 = BSIZE as u32 - o;
                    let m: u32 = if n - total < room {
                        n - total
                    } else {
                        room
                    };
                    assert(m == chunk(off as int, n - total));
                    let ghost part = buf.bytes().subrange(o as int, o + m);
                    copy_bytes(dst, total as usize, buf.data(), o as usize, m as usize);
                    store.brelse(buf);
                    proof {
                        assert(store@.held =~= s1@.held);
                        assert(store@ =~= s1@);
                        assert(store.slots() =~= s1.slots());
                        lemma_splice_append(dst0, 0, acc, part);
                        acc = acc + part;
                    }
                    total += m;
                },
                Err(_) => {
                    break;
                },
            }
        }
        Ok(total)
    }

    /// Writes `src` to inode at `offset`. Returns the number of bytes written, which is less than
    /// asked for where no block could be had.
    pub fn write(
        &self,
        store: &mut Store,
        sb: &SuperBlock,
        inner: &mut SleepLockGuard<InodeInner>,
        offset: u32,
        src: &[u8],
    ) -> (r: Result<u32, FsError>)
        requires
            old(store).wf(),
            sb.in_range(),
            src@.len() <= u32::MAX,
            old(store)@.write_inode(*sb, self.dev, self.inum, old(inner).data@, offset, src@) is Some,
        ensures
            final(store).wf(),
            final(store).slots() == old(store).slots(),
            Some((final(store)@, final(inner).data@, r)) == old(store)@.write_inode(
                *sb,
                self.dev,
                self.inum,
                old(inner).data@,
                offset,
                src@,
            ),
    {
        let ghost s0 = *store;
        let ghost d0 = inner.data@;
        let n: u32 = src.len() as u32;
        if offset > inner.data.size || offset.checked_add(n).is_none() {
            return Err(FsError::Write);
        }
        if offset + n > (MAXFILE * BSIZE) as u32 {
            return Err(FsError::Write);
        }
        let mut total: u32 = 0;
        let ghost want = s0@.write_bytes(*sb, self.dev, d0, offset as int, src@);
        proof {
            assert(src@.skip(0) =~= src@);
        }
        while total < n
            invariant_except_break
                want == store@.write_bytes(
                    *sb,
                    self.dev,
                    inner.data@,
                    offset + total,
                    src@.skip(total as int),
                ),
            invariant
                want is Some,
                n == src@.len(),
                total <= n,
                offset + n <= u32::MAX,
                store.wf(),
                store.slots() == s0.slots(),
                sb.in_range(),
            ensures
                want == Some((store@, inner.data@, offset + total)),
            decreases n - total,
        {
            let off = offset + total;
            match self.map(store, sb, inner, off / BSIZE as u32) {
                Ok(addr) => {
                    let o: u32 = off % BSIZE as u32;
                    let room: u32 = BSIZE as u32 - o;
                    let m: u32 = if n - total < room {
                        n - total
                    } else {
                        room
                    };
                    let ghost rest = src@.skip(total as int);
                    assert(m == chunk(off as int, n - total));
                    write_part(store, self.dev, addr, o as usize, src, total as usize, m as usize);
                    proof {
                        assert(src@.subrange(total as int, total + m) =~= rest.take(m as int));
                        assert(rest.skip(m as int) =~= src@.skip(total + m));
                    }
                    total += m;
                },
                Err(_) => {
                    break;
                },
            }
        }
        if offset + total > inner.data.size {
            inner.data.size = offset + total;
        }
        // write the inode back to disk even if the size didn't change because the loop above
        // might have called `map()` and added a new block to `addrs[]`.
        self.update(store, sb, inner);
        Ok(total)
    }
}

/// Writes `m` bytes of `src` at `from` to the block `addr` at `at`.
fn write_part(
    store: &mut Store,
    dev: u32,
    addr: u32,
    at: usize,
    src: &[u8],
    from: usize,
    m: usize,
)
    requires
        old(store).wf(),
        old(store)@.readable((dev, addr)),
        old(store)@.writable((dev, addr)),
        at + m <= BSIZE,
        from + m <= src@.len(),
    ensures
        final(store).wf(),
        final(store).slots() == old(store).slots(),
        final(store)@ == old(store)@.write(
            (dev, addr),
            splice(
                old(store)@.blocks[(dev, addr)],
                at as int,
                src@.subrange(from as int, from + m),
            ),
        ),
{
    let ghost s1 = *store;
    proof {
        store.lemma_total();
    }
    let mut buf = store.bread(dev, addr);
    put_bytes(buf.data_mut(), at, src, from, m);
    log::write(store, &buf);
    store.brelse(buf);
    proof {
        assert(store@.held =~= s1@.held);
        assert(store.slots() =~= s1.slots());
    }
}

/// Copies `m` bytes of `src` at `from` into the block `dst` at `at`.
pub fn put_bytes(dst: &mut [u8; BSIZE], at: usize, src: &[u8], from: usize, m: usize)
    requires
        at + m <= BSIZE,
        from + m <= src@.len(),
    ensures
        final(dst)@ == splice(old(dst)@, at as int, src@.subrange(from as int, from + m)),
{
    let mut i: usize = 0;
    let ghost d0 = dst@;
    while i < m
        invariant
            i <= m,
            at + m <= BSIZE,
            d0.len() == BSIZE,
            from + m <= src@.len(),
            dst@ == splice(d0, at as int, src@.subrange(from as int, from + i)),
        decreases m - i,
    {
        assert(from + m <= src.len());
        dst[at + i] = src[from + i];
        i += 1;
        assert(dst@ =~= splice(d0, at as int, src@.subrange(from as int, from + i)));
    }
}

} // verus!
