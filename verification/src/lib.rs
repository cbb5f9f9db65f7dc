//! A small Unix-like kernel and its user space, as a library of verified parts.
//!
//! Every structure that the kernel keeps is a value here, and every operation on it is a
//! function whose contract says exactly what it does. Where a process would have to wait,
//! the operation says so in its result and leaves the waiting to its caller.

pub mod abi;
pub mod buf;
pub mod console;
pub mod error;
pub mod exec;
pub mod file;
pub mod fs;
pub mod kalloc;
pub mod le;
pub mod log;
pub mod memlayout;
pub mod mkfs;
pub mod param;
pub mod pipe;
pub mod plic;
pub mod printf;
pub mod proc;
pub mod riscv;
pub mod sleeplock;
pub mod start;
pub mod sync;
pub mod syscall;
pub mod sysfile;
pub mod sysproc;
pub mod trap;
pub mod uart;
pub mod user;
pub mod virtio_disk;
pub mod vm;
