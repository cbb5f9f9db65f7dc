//! Sizes and limits of the kernel.
use vstd::prelude::*;

verus! {

/// Maximum number of processes.
pub const NPROC: usize = 64;

/// Maximum number of CPUs.
pub const NCPU: usize = 4;

/// Open files per process.
pub const NOFILE: usize = 16;

/// Open files per system.
pub const NFILE: usize = 100;

/// Maximum number of active inodes.
pub const NINODE: usize = 50;

/// Maximum major device number.
pub const NDEV: usize = 10;

/// Device number of the file system root disk.
pub const ROOTDEV: u32 = 1;

/// Maximum number of arguments of `exec`.
pub const MAXARG: usize = 32;

/// Maximum number of blocks that any file system operation writes.
pub const MAXOPBLOCKS: usize = 10;

/// Maximum number of data blocks in the on-disk log.
pub const LOGBLOCKS: usize = 30;

/// Size of the disk block cache: a full transaction can be pinned and still leave buffers for
/// the blocks in use.
pub const NBUF: usize = 40;

/// Maximum length of a path, terminator included.
pub const MAXPATH: usize = 128;

/// Pages of user stack.
pub const USERSTACK: usize = 1;

/// Pages of each kernel stack.
pub const NKSTACK_PAGES: usize = 4;

} // verus!
