//! Making a file system image.
//!
//! Disk layout:
//! `[ boot block | sb block | log | inode blocks | free bit map | data blocks ]`
use vstd::prelude::*;
use crate::fs::block::{byte_index, mask};
use crate::fs::dir::{padded, DirEntry, Directory};
use crate::fs::inode::{
    dinode_at,
    dinode_bytes,
    dinode_offset,
    dinode_ok,
    lemma_dinode_roundtrip,
    lemma_words_push,
    put_bytes,
    DiskInode,
    InodeData,
    InodeType,
};
use crate::fs::laws::lemma_bits;
use crate::fs::{
    lemma_superblock_roundtrip,
    SuperBlock,
    BPB,
    DIRSIZE,
    FSMAGIC,
    IPB,
    MAXFILE,
    NADDRS,
    NDIRECT,
    ROOTINO,
};
use crate::le::{get_u32, lemma_splice_append, put_u32, splice, u32_at, u32_bytes, words};
use crate::virtio_disk::{zeros, BSIZE};

pub mod laws;

verus! {

/// Size of file system in blocks
pub const FSSIZE: u32 = 2000;

/// Number of inodes
pub const NINODES: u32 = 200;

/// Number of blocks for the bitmap
pub const NBITMAP: u32 = 1;

/// Number of blocks for inodes
pub const NINODEBLOCKS: u32 = 13;

/// Header followed by the data blocks of the log
pub const NLOG: u32 = 31;

/// Number of meta blocks (boot, sb, nlog, inode, bitmap)
pub const NMETA: u32 = 47;

/// Number of data blocks
pub const NBLOCKS: u32 = 1953;

/// Block number of first inode block
pub const INODESTART: u32 = 33;

/// Block number of first free map block
pub const BMAPSTART: u32 = 46;

/// Why an image cannot be made.
#[derive(Debug, Clone, Copy, PartialEq, Eq, Structural)]
pub enum ImageError {
    /// A file is larger than the largest file.
    FileTooLarge,
    /// There is no block left.
    NoBlocks,
    /// There is no inode left.
    NoInodes,
    /// A name is too long for a directory entry.
    NameTooLong,
    /// A block address of a file is not that of a data block.
    BadBlock,
}

/// The superblock of the image.
pub open spec fn layout() -> SuperBlock {
    SuperBlock {
        magic: FSMAGIC,
        size: FSSIZE,
        nblocks: NBLOCKS,
        ninodes: NINODES,
        nlogs: NLOG,
        logstart: 2,
        inodestart: INODESTART,
        bmapstart: BMAPSTART,
    }
}

/// A new inode.
pub open spec fn new_inode(typ: InodeType) -> InodeData {
    InodeData {
        valid: true,
        typ,
        major: 0,
        minor: 0,
        nlink: 1,
        size: 0,
        addrs: Seq::new(NADDRS as nat, |i: int| 0u32),
    }
}

/// The block of inode `inum`.
pub open spec fn inode_block(inum: u32) -> int {
    INODESTART + inum / IPB
}

/// An image that is being made.
#[verifier::ext_equal]
pub struct ImageState {
    pub blocks: Seq<Seq<u8>>,
    /// The first block that is not in use
    pub free_block: u32,
    /// The first inode that is not in use
    pub free_inode: u32,
}

impl ImageState {
    /// Inode `inum`.
    pub open spec fn inode(self, inum: u32) -> InodeData {
        dinode_at(self.blocks[inode_block(inum)], inum)
    }

    pub open spec fn wf(self) -> bool {
        &&& self.blocks.len() == FSSIZE
        &&& forall|b: int| 0 <= b < FSSIZE ==> (#[trigger] self.blocks[b]).len() == BSIZE
        &&& forall|inum: u32|
            inum < NINODES ==> #[trigger] dinode_ok(self.blocks[inode_block(inum)], inum)
        &&& self.free_block <= FSSIZE
        &&& self.free_inode <= NINODES
    }

    /// With other contents of block `b`.
    pub open spec fn write(self, b: u32, bytes: Seq<u8>) -> ImageState {
        ImageState { blocks: self.blocks.update(b as int, bytes), ..self }
    }

    /// Inode `inum` is written.
    pub open spec fn write_inode(self, inum: u32, d: InodeData) -> ImageState {
        let b = inode_block(inum);
        self.write(b as u32, splice(self.blocks[b], dinode_offset(inum), dinode_bytes(d)))
    }

    /// The next inode becomes one of type `typ`.
    pub open spec fn allocate_inode(self, typ: InodeType) -> Result<(ImageState, u32), ImageError> {
        if self.free_inode >= NINODES {
            Err(ImageError::NoInodes)
        } else {
            Ok(
                (
                    ImageState {
                        free_inode: (self.free_inode + 1) as u32,
                        ..self.write_inode(self.free_inode, new_inode(typ))
                    },
                    self.free_inode,
                ),
            )
        }
    }

    /// The next block is taken into use.
    pub open spec fn take_block(self) -> Result<(ImageState, u32), ImageError> {
        if self.free_block >= FSSIZE {
            Err(ImageError::NoBlocks)
        } else {
            Ok(
                (
                    ImageState { free_block: (self.free_block + 1) as u32, ..self },
                    self.free_block,
                ),
            )
        }
    }

    /// The address in slot `i` of the inode `d`: a new block if there is none.
    pub open spec fn slot(self, d: InodeData, i: int) -> Result<
        (ImageState, InodeData, u32),
        ImageError,
    > {
        if d.addrs[i] != 0 {
            Ok((self, d, d.addrs[i]))
        } else {
            match self.take_block() {
                Ok((s, b)) => Ok((s, InodeData { addrs: d.addrs.update(i, b), ..d }, b)),
                Err(e) => Err(e),
            }
        }
    }

    /// The address of entry `i` of the indirect block `ib`: a new block if there is none.
    pub open spec fn entry(self, ib: u32, i: int) -> Result<(ImageState, u32), ImageError> {
        let old = self.blocks[ib as int];
        if !is_data(ib) {
            Err(ImageError::BadBlock)
        } else if u32_at(old, 4 * i) != 0 {
            Ok((self, u32_at(old, 4 * i)))
        } else {
            match self.take_block() {
                Ok((s, b)) => Ok((s.write(ib, splice(old, 4 * i, u32_bytes(b))), b)),
                Err(e) => Err(e),
            }
        }
    }

    /// The address of block `bn` of the file `d`: a new block if there is none.
    pub open spec fn map(self, d: InodeData, bn: int) -> Result<
        (ImageState, InodeData, u32),
        ImageError,
    > {
        if bn < NDIRECT {
            self.slot(d, bn)
        } else {
            match self.slot(d, NDIRECT as int) {
                Err(e) => Err(e),
                Ok((s, d, ib)) => match s.entry(ib, bn - NDIRECT) {
                    Err(e) => Err(e),
                    Ok((s, b)) => Ok((s, d, b)),
                },
            }
        }
    }

    /// `data` is written at `offset` of the file `d`, which then ends there.
    pub open spec fn put(self, d: InodeData, offset: int, data: Seq<u8>) -> Result<
        (ImageState, InodeData),
        ImageError,
    >
        decreases data.len(),
    {
        let bn = offset / (BSIZE as int);
        let at = offset % (BSIZE as int);
        let n = if data.len() < BSIZE - at {
            data.len() as int
        } else {
            BSIZE - at
        };
        if data.len() == 0 {
            Ok((self, InodeData { size: offset as u32, ..d }))
        } else if bn >= MAXFILE {
            Err(ImageError::FileTooLarge)
        } else {
            match self.map(d, bn) {
                Err(e) => Err(e),
                Ok((s, d, b)) => if !is_data(b) {
                    Err(ImageError::BadBlock)
                } else {
                    s.write(b, splice(s.blocks[b as int], at, data.take(n))).put(
                        d,
                        offset + n,
                        data.skip(n),
                    )
                },
            }
        }
    }

    /// `data` is appended to the file with inode `inum`.
    pub open spec fn append_inode(self, inum: u32, data: Seq<u8>) -> Result<ImageState, ImageError> {
        let d = self.inode(inum);
        match self.put(d, d.size as int, data) {
            Err(e) => Err(e),
            Ok((s, d)) => Ok(s.write_inode(inum, d)),
        }
    }

    /// An entry is appended to the root directory.
    pub open spec fn add_entry(self, name: Seq<u8>, inum: u32) -> Result<ImageState, ImageError> {
        self.append_inode(
            ROOTINO,
            (DirEntry { inum: inum as u16, name: padded(name) }).bytes(),
        )
    }

    /// A file is added to the root directory.
    pub open spec fn add_file(self, name: Seq<u8>, data: Seq<u8>) -> Result<ImageState, ImageError> {
        if name.len() >= DIRSIZE {
            Err(ImageError::NameTooLong)
        } else {
            match self.allocate_inode(InodeType::File) {
                Err(e) => Err(e),
                Ok((s, inum)) => match s.add_entry(name, inum) {
                    Err(e) => Err(e),
                    Ok(s) => s.append_inode(inum, data),
                },
            }
        }
    }

    /// All zeros but for the superblock.
    pub open spec fn blank() -> ImageState {
        ImageState {
            blocks: Seq::new(FSSIZE as nat, |i: int| zeros()),
            free_block: NMETA,
            free_inode: 1,
        }.write(1, splice(zeros(), 0, layout().bytes()))
    }

    /// An image without files.
    pub open spec fn empty() -> Result<ImageState, ImageError> {
        ImageState::blank().add_root()
    }

    /// The root directory is added, with its entries `.` and `..`.
    pub open spec fn add_root(self) -> Result<ImageState, ImageError> {
        match self.allocate_inode(InodeType::Directory) {
            Err(e) => Err(e),
            Ok((s, inum)) => match s.add_entry(seq![0x2e], inum) {
                Err(e) => Err(e),
                Ok(s) => s.add_entry(seq![0x2e, 0x2e], inum),
            },
        }
    }

    /// The root directory fills its last block.
    pub open spec fn round_root(self) -> ImageState {
        let d = self.inode(ROOTINO);
        self.write_inode(
            ROOTINO,
            InodeData { size: ((d.size / (BSIZE as u32) + 1) * BSIZE) as u32, ..d },
        )
    }

    /// Exactly the blocks below `free_block` are marked in use.
    pub open spec fn marked(self) -> bool {
        forall|b: u32|
            b < BPB ==> (#[trigger] self.blocks[BMAPSTART as int][byte_index(b)] & mask(b) != 0) == (b
                < self.free_block)
    }
}

/// Whether a block can hold data of a file.
pub open spec fn is_data(b: u32) -> bool {
    NMETA <= b < FSSIZE
}

/// An image that is being made.
pub struct Image {
    blocks: Vec<[u8; BSIZE]>,
    free_block: u32,
    free_inode: u32,
}

impl View for Image {
    type V = ImageState;

    closed spec fn view(&self) -> ImageState {
        ImageState {
            blocks: self.blocks@.map_values(|b: [u8; BSIZE]| b@),
            free_block: self.free_block,
            free_inode: self.free_inode,
        }
    }
}

impl Image {
    /// The contents of block `b`.
    pub fn read_sector(&self, b: u32) -> (r: [u8; BSIZE])
        requires
            self@.wf(),
            b < FSSIZE,
        ensures
            r@ == self@.blocks[b as int],
    {
        self.blocks[b as usize]
    }

    /// The first block that is not in use.
    pub fn used(&self) -> (r: u32)
        ensures
            r == self@.free_block,
    {
        self.free_block
    }

    fn write_sector(&mut self, b: u32, data: [u8; BSIZE])
        requires
            old(self)@.blocks.len() == FSSIZE,
            b < FSSIZE,
        ensures
            final(self)@ == old(self)@.write(b, data@),
    {
        self.blocks[b as usize] = data;
        assert(self@.blocks =~= old(self)@.blocks.update(b as int, data@));
    }

    fn write_inode(&mut self, inum: u32, inode: &DiskInode)
        requires
            old(self)@.wf(),
            inum < NINODES,
        ensures
            final(self)@ == old(self)@.write_inode(inum, inode.data()),
            final(self)@.wf(),
    {
        let b = INODESTART + inum / IPB;
        let mut buf = self.read_sector(b);
        inode.to_block(&mut buf, inum);
        self.write_sector(b, buf);
        proof {
            lemma_write_inode(old(self)@, inum, inode.data());
        }
    }

    fn read_inode(&self, inum: u32) -> (r: DiskInode)
        requires
            self@.wf(),
            inum < NINODES,
        ensures
            r.data() == self@.inode(inum),
    {
        let b = INODESTART + inum / IPB;
        let buf = self.read_sector(b);
        DiskInode::from_block(&buf, inum)
    }

    fn allocate_inode(&mut self, typ: InodeType) -> (r: Result<u32, ImageError>)
        requires
            old(self)@.wf(),
        ensures
            match r {
                Ok(inum) => old(self)@.allocate_inode(typ) == Ok::<(ImageState, u32), ImageError>(
                    (final(self)@, inum),
                ) && final(self)@.wf() && inum < NINODES,
                Err(e) => old(self)@.allocate_inode(typ) == Err::<(ImageState, u32), ImageError>(e),
            },
    {
        let inum = self.free_inode;
        if inum >= NINODES {
            return Err(ImageError::NoInodes);
        }
        let din = DiskInode {
            typ,
            major: 0,
            minor: 0,
            nlink: 1,
            size: 0,
            addrs: [0u32;NADDRS],
        };
        assert(din.data() =~= new_inode(typ));
        self.write_inode(inum, &din);
        self.free_inode = inum + 1;
        assert(self@.blocks =~= old(self)@.write_inode(inum, new_inode(typ)).blocks);
        Ok(inum)
    }

    /// Takes the next block into use.
    fn take_block(&mut self) -> (r: Result<u32, ImageError>)
        requires
            old(self)@.wf(),
        ensures
            match r {
                Ok(b) => old(self)@.take_block() == Ok::<(ImageState, u32), ImageError>(
                    (final(self)@, b),
                ) && final(self)@.wf(),
                Err(e) => old(self)@.take_block() == Err::<(ImageState, u32), ImageError>(e),
            },
    {
        if self.free_block >= FSSIZE {
            return Err(ImageError::NoBlocks);
        }
        self.free_block = self.free_block + 1;
        assert(self@.blocks =~= old(self)@.blocks);
        Ok(self.free_block - 1)
    }

    fn slot(&mut self, din: &mut DiskInode, i: usize) -> (r: Result<u32, ImageError>)
        requires
            old(self)@.wf(),
            i < NADDRS,
        ensures
            match r {
                Ok(b) => old(self)@.slot(old(din).data(), i as int) == Ok::<
                    (ImageState, InodeData, u32),
                    ImageError,
                >((final(self)@, final(din).data(), b)) && final(self)@.wf(),
                Err(e) => old(self)@.slot(old(din).data(), i as int) == Err::<
                    (ImageState, InodeData, u32),
                    ImageError,
                >(e),
            },
    {
        if din.addrs[i] != 0 {
            return Ok(din.addrs[i]);
        }
        match self.take_block() {
            Ok(b) => {
                din.addrs[i] = b;
                Ok(b)
            },
            Err(e) => Err(e),
        }
    }

    fn entry(&mut self, ib: u32, i: usize) -> (r: Result<u32, ImageError>)
        requires
            old(self)@.wf(),
            i < 256,
        ensures
            match r {
                Ok(b) => old(self)@.entry(ib, i as int) == Ok::<(ImageState, u32), ImageError>(
                    (final(self)@, b),
                ) && final(self)@.wf(),
                Err(e) => old(self)@.entry(ib, i as int) == Err::<(ImageState, u32), ImageError>(e),
            },
    {
        if ib < NMETA || ib >= FSSIZE {
            return Err(ImageError::BadBlock);
        }
        let mut indirect = self.read_sector(ib);
        let addr = get_u32(indirect.as_slice(), 4 * i);
        if addr != 0 {
            return Ok(addr);
        }
        match self.take_block() {
            Ok(b) => {
                put_u32(&mut indirect, 4 * i, b);
                let ghost s1 = self@;
                self.write_sector(ib, indirect);
                proof {
                    lemma_write_data(s1, ib, indirect@);
                }
                Ok(b)
            },
            Err(e) => Err(e),
        }
    }

    /// The address of block `bn` of a file: a new block if there is none.
    fn map(&mut self, din: &mut DiskInode, bn: usize) -> (r: Result<u32, ImageError>)
        requires
            old(self)@.wf(),
            bn < MAXFILE,
        ensures
            match r {
                Ok(b) => old(self)@.map(old(din).data(), bn as int) == Ok::<
                    (ImageState, InodeData, u32),
                    ImageError,
                >((final(self)@, final(din).data(), b)) && final(self)@.wf(),
                Err(e) => old(self)@.map(old(din).data(), bn as int) == Err::<
                    (ImageState, InodeData, u32),
                    ImageError,
                >(e),
            },
    {
        if bn < NDIRECT {
            return self.slot(din, bn);
        }
        match self.slot(din, NDIRECT) {
            Ok(ib) => self.entry(ib, bn - NDIRECT),
            Err(e) => Err(e),
        }
    }

    /// Appends `data` to the file with inode `inum`. An image for which this fails is given up.
    pub fn append_inode(&mut self, inum: u32, data: &[u8]) -> (r: Result<(), ImageError>)
        requires
            old(self)@.wf(),
            inum < NINODES,
        ensures
            match r {
                Ok(_) => old(self)@.append_inode(inum, data@) == Ok::<ImageState, ImageError>(
                    final(self)@,
                ) && final(self)@.wf(),
                Err(e) => old(self)@.append_inode(inum, data@) == Err::<ImageState, ImageError>(e),
            },
    {
        let mut din = self.read_inode(inum);
        let mut offset = din.size;
        let mut done: usize = 0;
        let ghost want = self@.put(din.data(), offset as int, data@);
        assert(data@.skip(0) =~= data@);
        while done < data.len()
            invariant
                self@.wf(),
                done <= data@.len(),
                done == 0 || offset <= MAXFILE * BSIZE,
                want == self@.put(din.data(), offset as int, data@.skip(done as int)),
                want == old(self)@.put(
                    old(self)@.inode(inum),
                    old(self)@.inode(inum).size as int,
                    data@,
                ),
            decreases data@.len() - done,
        {
            let ghost rest = data@.skip(done as int);
            let bn = offset as usize / BSIZE;
            if bn >= MAXFILE {
                return Err(ImageError::FileTooLarge);
            }
            let b = match self.map(&mut din, bn) {
                Ok(b) => b,
                Err(e) => {
                    return Err(e);
                },
            };
            if b < NMETA || b >= FSSIZE {
                return Err(ImageError::BadBlock);
            }
            let at = offset as usize % BSIZE;
            let left = data.len() - done;
            let n = if left < BSIZE - at {
                left
            } else {
                BSIZE - at
            };
            let ghost s1 = self@;
            let mut buf = self.read_sector(b);
            put_bytes(&mut buf, at, data, done, n);
            assert(data@.subrange(done as int, done + n) =~= rest.take(n as int));
            assert(rest.skip(n as int) =~= data@.skip(done + n));
            self.write_sector(b, buf);
            proof {
                lemma_write_data(s1, b, buf@);
            }
            offset += n as u32;
            done += n;
        }
        assert(data@.skip(done as int).len() == 0);
        din.size = offset;
        self.write_inode(inum, &din);
        Ok(())
    }

    /// Appends an entry to the root directory.
    fn add_entry(&mut self, name: &[u8], inum: u32) -> (r: Result<(), ImageError>)
        requires
            old(self)@.wf(),
            inum < NINODES,
        ensures
            match r {
                Ok(_) => old(self)@.add_entry(name@, inum) == Ok::<ImageState, ImageError>(
                    final(self)@,
                ) && final(self)@.wf(),
                Err(e) => old(self)@.add_entry(name@, inum) == Err::<ImageState, ImageError>(e),
            },
    {
        let mut de = Directory::new_empty();
        de.inum = inum as u16;
        de.set_name(name);
        let bytes = de.as_bytes();
        self.append_inode(ROOTINO, bytes.as_slice())
    }

    /// An image without files: all zeros but for the superblock and the root directory.
    pub fn new() -> (r: Result<Image, ImageError>)
        ensures
            match r {
                Ok(image) => ImageState::empty() == Ok::<ImageState, ImageError>(image@)
                    && image@.wf(),
                Err(e) => ImageState::empty() == Err::<ImageState, ImageError>(e),
            },
    {
        let mut blocks: Vec<[u8; BSIZE]> = Vec::new();
        while blocks.len() < FSSIZE as usize
            invariant
                blocks@.len() <= FSSIZE,
                forall|i: int| 0 <= i < blocks@.len() ==> (#[trigger] blocks@[i])@ == zeros(),
            decreases FSSIZE - blocks@.len(),
        {
            let blank = [0u8;BSIZE];
            assert(blank@ =~= zeros());
            blocks.push(blank);
        }
        let mut image = Image { blocks, free_block: NMETA, free_inode: 1 };
        assert(image@.blocks =~= Seq::new(FSSIZE as nat, |i: int| zeros()));
        let mut buf = [0u8;BSIZE];
        assert(buf@ =~= zeros());
        put_superblock(&mut buf);
        image.write_sector(1, buf);
        proof {
            lemma_blank_ok(image@);
        }
        match image.add_root() {
            Err(e) => Err(e),
            Ok(_) => Ok(image),
        }
    }

    /// Adds the root directory with its entries `.` and `..`.
    fn add_root(&mut self) -> (r: Result<(), ImageError>)
        requires
            old(self)@.wf(),
        ensures
            match r {
                Ok(_) => old(self)@.add_root() == Ok::<ImageState, ImageError>(final(self)@)
                    && final(self)@.wf(),
                Err(e) => old(self)@.add_root() == Err::<ImageState, ImageError>(e),
            },
    {
        let inum = match self.allocate_inode(InodeType::Directory) {
            Err(e) => {
                return Err(e);
            },
            Ok(inum) => inum,
        };
        let dot = [0x2eu8];
        let dots = [0x2eu8, 0x2e];
        assert(dot@ =~= seq![0x2e]);
        assert(dots@ =~= seq![0x2e, 0x2e]);
        match self.add_entry(dot.as_slice(), inum) {
            Err(e) => Err(e),
            Ok(_) => self.add_entry(dots.as_slice(), inum),
        }
    }

    /// Adds a file to the root directory. An image for which this fails is given up.
    pub fn add_file(&mut self, name: &[u8], data: &[u8]) -> (r: Result<(), ImageError>)
        requires
            old(self)@.wf(),
        ensures
            match r {
                Ok(_) => old(self)@.add_file(name@, data@) == Ok::<ImageState, ImageError>(
                    final(self)@,
                ) && final(self)@.wf(),
                Err(e) => old(self)@.add_file(name@, data@) == Err::<ImageState, ImageError>(e),
            },
    {
        if name.len() >= DIRSIZE {
            return Err(ImageError::NameTooLong);
        }
        let inum = match self.allocate_inode(InodeType::File) {
            Ok(inum) => inum,
            Err(e) => {
                return Err(e);
            },
        };
        match self.add_entry(name, inum) {
            Err(e) => Err(e),
            Ok(_) => self.append_inode(inum, data),
        }
    }

    /// Completes the image: the size of the root directory, and the bitmap.
    pub fn finish(&mut self)
        requires
            old(self)@.wf(),
        ensures
            final(self)@.free_block == old(self)@.free_block,
            final(self)@.free_inode == old(self)@.free_inode,
            final(self)@.marked(),
            final(self)@.wf(),
            final(self)@ == old(self)@.round_root().write(
                BMAPSTART,
                final(self)@.blocks[BMAPSTART as int],
            ),
    {
        // fix size of root inode dir
        let mut din = self.read_inode(ROOTINO);
        proof {
            let z = din.size / 1024;
            assert(z <= 0x3f_ffff);
        }
        let size = (din.size as u64 / BSIZE as u64 + 1) * BSIZE as u64;
        din.size = size as u32;
        self.write_inode(ROOTINO, &din);
        let ghost s1 = self@;
        let used = self.free_block;
        let buf = allocate_block(used);
        self.write_sector(BMAPSTART, buf);
        proof {
            assert(self@.blocks[BMAPSTART as int] == buf@);
            lemma_write_bitmap(s1, buf@);
        }
    }
}

/// Writes the superblock to the start of a block.
fn put_superblock(buf: &mut [u8; BSIZE])
    ensures
        final(buf)@ == splice(old(buf)@, 0, layout().bytes()),
{
    let ghost b0 = buf@;
    let hs = [FSMAGIC, FSSIZE, NBLOCKS, NINODES, NLOG, 2, INODESTART, BMAPSTART];
    let mut i: usize = 0;
    assert(buf@ =~= splice(b0, 0, words(hs@.take(0))));
    while i < 8
        invariant
            i <= 8,
            buf@ == splice(b0, 0, words(hs@.take(i as int))),
        decreases 8 - i,
    {
        put_u32(buf, 4 * i, hs[i]);
        proof {
            let w = words(hs@.take(i as int));
            lemma_splice_append(b0, 0, w, u32_bytes(hs@[i as int]));
            lemma_words_push(hs@.take(i as int), hs@[i as int]);
            assert(hs@.take(i + 1) =~= hs@.take(i as int).push(hs@[i as int]));
        }
        i += 1;
    }
    assert(hs@.take(8) =~= seq![
        FSMAGIC,
        FSSIZE,
        NBLOCKS,
        NINODES,
        NLOG,
        2,
        INODESTART,
        BMAPSTART,
    ]);
}

/// The bitmap in which the first `used` blocks are marked in use.
fn allocate_block(used: u32) -> (r: [u8; BSIZE])
    requires
        used < BPB,
    ensures
        forall|b: u32|
            b < BPB ==> (#[trigger] r@[byte_index(b)] & mask(b) != 0) == (b < used),
{
    let mut buf = [0u8;BSIZE];
    let mut i: u32 = 0;
    assert forall|b: u32| b < BPB implies #[trigger] buf@[byte_index(b)] & mask(b) == 0 by {
        let m = mask(b);
        assert(0u8 & m == 0) by (bit_vector);
    }
    while i < used
        invariant
            i <= used < BPB,
            forall|b: u32|
                b < BPB ==> (#[trigger] buf@[byte_index(b)] & mask(b) != 0) == (b < i),
        decreases used - i,
    {
        let ghost buf0 = buf@;
        let k = (i / 8) as usize;
        let old_byte = buf[k];
        buf[k] = old_byte | (1u8 << (i % 8));
        assert forall|b: u32| b < BPB implies (#[trigger] buf@[byte_index(b)] & mask(b) != 0) == (b
            < i + 1) by {
            assert((buf0[byte_index(b)] & mask(b) != 0) == (b < i));
            if byte_index(b) == k {
                lemma_bits(old_byte, i % 8, b % 8);
            }
        }
        i += 1;
    }
    buf
}

/// Writing a data block leaves the inodes alone.
pub proof fn lemma_write_data(s: ImageState, b: u32, bytes: Seq<u8>)
    requires
        s.wf(),
        is_data(b),
        bytes.len() == BSIZE,
    ensures
        s.write(b, bytes).wf(),
{
    let t = s.write(b, bytes);
    assert forall|inum: u32| inum < NINODES implies #[trigger] dinode_ok(
        t.blocks[inode_block(inum)],
        inum,
    ) by {
        assert(dinode_ok(s.blocks[inode_block(inum)], inum));
    }
}

/// Writing the bitmap leaves the inodes alone.
proof fn lemma_write_bitmap(s: ImageState, bytes: Seq<u8>)
    requires
        s.wf(),
        bytes.len() == BSIZE,
    ensures
        s.write(BMAPSTART, bytes).wf(),
{
    let t = s.write(BMAPSTART, bytes);
    assert forall|inum: u32| inum < NINODES implies #[trigger] dinode_ok(
        t.blocks[inode_block(inum)],
        inum,
    ) by {
        assert(dinode_ok(s.blocks[inode_block(inum)], inum));
    }
}

/// An inode that is written reads back, and the others are as they were.
pub proof fn lemma_write_inode(s: ImageState, inum: u32, d: InodeData)
    requires
        s.wf(),
        inum < NINODES,
        d.addrs.len() == NADDRS,
    ensures
        s.write_inode(inum, d).wf(),
        s.write_inode(inum, d).inode(inum) == (InodeData { valid: true, ..d }),
        forall|k: u32|
            k < NINODES && k != inum ==> #[trigger] s.write_inode(inum, d).inode(k) == s.inode(k),
{
    let t = s.write_inode(inum, d);
    let b = s.blocks[inode_block(inum)];
    let off = dinode_offset(inum);
    lemma_dinode_roundtrip(b, inum, d);
    assert(dinode_bytes(d).len() == 64);
    assert forall|k: u32| k < NINODES && k != inum implies dinode_ok(
        #[trigger] t.blocks[inode_block(k)],
        k,
    ) && t.inode(k) == s.inode(k) by {
        assert(dinode_ok(s.blocks[inode_block(k)], k));
        if k / IPB == inum / IPB {
            let c = splice(b, off, dinode_bytes(d));
            let at = dinode_offset(k);
            assert(k % IPB != inum % IPB);
            assert(at + 64 <= off || off + 64 <= at);
            assert(forall|i: int| at <= i < at + 64 ==> c[i] == b[i]);
            assert(dinode_at(c, k).addrs =~= dinode_at(b, k).addrs) by {
                assert forall|i: int| 0 <= i < NADDRS implies dinode_at(c, k).addrs[i] == dinode_at(
                    b,
                    k,
                ).addrs[i] by {
                    let p = at + 12 + 4 * i;
                    assert(at <= p && p + 4 <= at + 64);
                    assert(c[p] == b[p] && c[p + 1] == b[p + 1] && c[p + 2] == b[p + 2] && c[p + 3]
                        == b[p + 3]);
                }
            }
        }
    }
}

/// In an image without files no inode is in use.
pub proof fn lemma_blank_ok(s: ImageState)
    requires
        s.blocks.len() == FSSIZE,
        forall|b: int| 0 <= b < FSSIZE && b != 1 ==> #[trigger] s.blocks[b] == zeros(),
        s.blocks[1].len() == BSIZE,
        s.free_block == NMETA,
        s.free_inode == 1,
    ensures
        s.wf(),
{
    assert forall|inum: u32| inum < NINODES implies #[trigger] dinode_ok(
        s.blocks[inode_block(inum)],
        inum,
    ) by {
        assert(s.blocks[inode_block(inum)] == zeros());
    }
}

/// The superblock of every image says where the kernel finds things: reading the second block
/// gives the layout, and its numbers are in range.
pub proof fn law_superblock()
    ensures
        SuperBlock::decode(splice(zeros(), 0, layout().bytes())) == layout(),
        layout().in_range(),
        layout().magic == FSMAGIC,
        forall|inum: u32|
            inum < NINODES ==> 2 + NLOG <= #[trigger] layout().inode_block(inum) < BMAPSTART,
        forall|b: u32| b < FSSIZE ==> #[trigger] layout().bitmap_block(b) == BMAPSTART,
        layout().logstart + layout().nlogs == layout().inodestart,
        layout().size == NMETA + layout().nblocks,
{
    lemma_superblock_roundtrip(layout(), zeros());
}

} // verus!
