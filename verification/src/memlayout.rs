//! Where things are in physical and virtual memory.
use vstd::prelude::*;
use crate::param::NPROC;
use crate::riscv::PGSIZE;

verus! {

/// UART registers
pub const UART0: u64 = 0x1000_0000;

/// UART interrupt
pub const UART0_IRQ: u32 = 10;

/// virtio mmio interface
pub const VIRTIO0: u64 = 0x1000_1000;

/// virtio interrupt
pub const VIRTIO0_IRQ: u32 = 1;

/// Test device, which powers the machine off
pub const QEMU_POWER: u64 = 0x10_0000;

/// Platform-level interrupt controller (PLIC)
pub const PLIC: u64 = 0x0c00_0000;

/// Size of the PLIC's registers
pub const PLIC_SIZE: u64 = 0x400_0000;

/// Start of physical memory
pub const KERNBASE: u64 = 0x8000_0000;

/// End of physical memory
pub const PHYSTOP: u64 = 0x8800_0000;

/// Trampoline page, mapped to the highest address in both user and kernel space
pub const TRAMPOLINE: u64 = 0x3f_ffff_f000;

/// Trap frame of the process, below the trampoline
pub const TRAPFRAME: u64 = 0x3f_ffff_e000;

/// Interrupt enable bits of a hart, supervisor mode
pub fn plic_senable(hart: u64) -> (r: u64)
    requires
        hart < 0x1_0000,
    ensures
        r == PLIC + 0x2080 + hart * 0x100,
{
    PLIC + 0x2080 + hart * 0x100
}

/// Priority threshold of a hart, supervisor mode
pub fn plic_spriority(hart: u64) -> (r: u64)
    requires
        hart < 0x1_0000,
    ensures
        r == PLIC + 0x20_1000 + hart * 0x2000,
{
    PLIC + 0x20_1000 + hart * 0x2000
}

/// Claim register of a hart, supervisor mode
pub fn plic_sclaim(hart: u64) -> (r: u64)
    requires
        hart < 0x1_0000,
    ensures
        r == PLIC + 0x20_1004 + hart * 0x2000,
{
    PLIC + 0x20_1004 + hart * 0x2000
}

/// The size of a kernel stack and the page above it
pub const KSTACK_STRIDE: u64 = 0x5000;

/// Where the kernel stack of process `i` is: below the trampoline, each with an unmapped page
/// above it.
pub open spec fn kstack_at(i: int) -> int {
    TRAMPOLINE - (i + 1) * KSTACK_STRIDE
}

/// Where the kernel stack of process `i` is.
pub fn kstack(i: usize) -> (r: u64)
    requires
        i < NPROC,
    ensures
        r == kstack_at(i as int),
        r % PGSIZE == 0,
        0x3f_0000_0000 < r < TRAMPOLINE,
{
    TRAMPOLINE - (i as u64 + 1) * KSTACK_STRIDE
}

} // verus!
