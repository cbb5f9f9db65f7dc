//! The file system.
//!
//! Five layers:
//!   + blocks: an allocator of raw disk blocks
//!   + log: crash recovery for multi-step updates
//!   + files: an inode allocator, reading, writing, metadata
//!   + directories: an inode with special contents (a list of other inodes)
//!   + names: paths for convenient naming
use vstd::prelude::*;
use crate::le::{get_u32, lemma_words_at, splice, u32_at, words};

pub mod block;
pub mod dir;
pub mod dir_laws;
pub mod inode;
pub mod laws;
pub mod ops;
pub mod op_laws;
pub mod path;
pub mod path_laws;
pub mod table;
pub mod user;
pub mod user_laws;

pub use block::Block;
pub use dir::{DirEntry, Directory};
pub use inode::{DiskInode, Inode, InodeData, InodeInner, InodeType, Stat};
pub use path::Path;
pub use table::{init, Fs, FsState, InodeMeta, InodeTable};

verus! {

/// File system magic number
pub const FSMAGIC: u32 = 0x10203040;

/// Root inode number
pub const ROOTINO: u32 = 1;

/// Number of direct block addresses in inode
pub const NDIRECT: usize = 12;

/// Number of block addresses in inode: the direct ones and the indirect block
pub const NADDRS: usize = 13;

/// Number of indirect block addresses in inode
pub const NINDIRECT: usize = 256;

/// Max file size (blocks)
pub const MAXFILE: usize = 268;

/// Size of an inode on disk
pub const DINODESIZE: usize = 64;

/// Inodes per block
pub const IPB: u32 = 16;

/// Bitmap bits per block
pub const BPB: u32 = 8192;

/// Directory entry name size
pub const DIRSIZE: usize = 14;

/// What can go wrong in the file system.
#[derive(Debug, Clone, Copy, PartialEq, Eq, Structural)]
pub enum FsError {
    OutOfBlock,
    OutOfInode,
    OutOfFile,
    OutOfRange,
    OutOfPipe,
    Read,
    Write,
    Create,
    Link,
    Resolve,
    Type,
    Copy,
}

impl FsError {
    /// The message for the error.
    pub open spec fn text(self) -> Seq<char> {
        match self {
            FsError::OutOfBlock => "out of block"@,
            FsError::OutOfInode => "out of inode"@,
            FsError::OutOfRange => "out of range"@,
            FsError::OutOfFile => "out of file"@,
            FsError::OutOfPipe => "out of pipe"@,
            FsError::Read => "read error"@,
            FsError::Write => "write error"@,
            FsError::Create => "create error"@,
            FsError::Link => "link error"@,
            FsError::Resolve => "resolve error"@,
            FsError::Type => "type error"@,
            FsError::Copy => "copy error"@,
        }
    }

    /// The message for the error.
    pub fn as_str(&self) -> (r: &'static str)
        ensures
            r@ == self.text(),
    {
        match self {
            FsError::OutOfBlock => "out of block",
            FsError::OutOfInode => "out of inode",
            FsError::OutOfRange => "out of range",
            FsError::OutOfFile => "out of file",
            FsError::OutOfPipe => "out of pipe",
            FsError::Read => "read error",
            FsError::Write => "write error",
            FsError::Create => "create error",
            FsError::Link => "link error",
            FsError::Resolve => "resolve error",
            FsError::Type => "type error",
            FsError::Copy => "copy error",
        }
    }
}

/// On-disk superblock (read at boot)
#[derive(Debug, Clone, Copy)]
pub struct SuperBlock {
    /// Must be `FSMAGIC`
    pub magic: u32,
    /// Size of file system image (blocks)
    pub size: u32,
    /// Number of data blocks
    pub nblocks: u32,
    /// Number of inodes
    pub ninodes: u32,
    /// Number of log blocks
    pub nlogs: u32,
    /// Block number of first log block
    pub logstart: u32,
    /// Block number of first inode block
    pub inodestart: u32,
    /// Block number of first free map block
    pub bmapstart: u32,
}

impl SuperBlock {
    /// The superblock in the block `b`.
    pub open spec fn decode(b: Seq<u8>) -> SuperBlock {
        SuperBlock {
            magic: u32_at(b, 0),
            size: u32_at(b, 4),
            nblocks: u32_at(b, 8),
            ninodes: u32_at(b, 12),
            nlogs: u32_at(b, 16),
            logstart: u32_at(b, 20),
            inodestart: u32_at(b, 24),
            bmapstart: u32_at(b, 28),
        }
    }

    /// The bytes of the superblock.
    pub open spec fn bytes(self) -> Seq<u8> {
        words(
            seq![
                self.magic,
                self.size,
                self.nblocks,
                self.ninodes,
                self.nlogs,
                self.logstart,
                self.inodestart,
                self.bmapstart,
            ],
        )
    }

    /// Reads a superblock from the start of a block.
    pub fn from_bytes(b: &[u8]) -> (r: Self)
        requires
            b@.len() >= 32,
        ensures
            r == Self::decode(b@),
    {
        SuperBlock {
            magic: get_u32(b, 0),
            size: get_u32(b, 4),
            nblocks: get_u32(b, 8),
            ninodes: get_u32(b, 12),
            nlogs: get_u32(b, 16),
            logstart: get_u32(b, 20),
            inodestart: get_u32(b, 24),
            bmapstart: get_u32(b, 28),
        }
    }

    /// The arithmetic on block numbers stays within range.
    pub open spec fn in_range(self) -> bool {
        &&& self.bmapstart + self.size / BPB < u32::MAX
        &&& self.inodestart + self.ninodes / IPB < u32::MAX
        &&& self.size <= u32::MAX - BPB
    }

    /// The block of the bitmap in which block `b` has its bit.
    pub open spec fn bitmap_block(self, b: u32) -> u32 {
        (self.bmapstart + b / BPB) as u32
    }

    /// The block in which inode `inum` lies.
    pub open spec fn inode_block(self, inum: u32) -> u32 {
        (self.inodestart + inum / IPB) as u32
    }
}

/// A superblock reads back as it was written.
pub proof fn lemma_superblock_roundtrip(sb: SuperBlock, b: Seq<u8>)
    requires
        b.len() >= 32,
    ensures
        SuperBlock::decode(splice(b, 0, sb.bytes())) == sb,
{
    let s = splice(b, 0, sb.bytes());
    let hs = seq![
        sb.magic,
        sb.size,
        sb.nblocks,
        sb.ninodes,
        sb.nlogs,
        sb.logstart,
        sb.inodestart,
        sb.bmapstart,
    ];
    assert(s.subrange(0, 32) =~= words(hs));
    lemma_words_at(s, 0, hs, 0);
    lemma_words_at(s, 0, hs, 1);
    lemma_words_at(s, 0, hs, 2);
    lemma_words_at(s, 0, hs, 3);
    lemma_words_at(s, 0, hs, 4);
    lemma_words_at(s, 0, hs, 5);
    lemma_words_at(s, 0, hs, 6);
    lemma_words_at(s, 0, hs, 7);
}

} // verus!
