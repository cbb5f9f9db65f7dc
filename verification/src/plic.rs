//! RISCV Platform Level Interrupt Controller (PLIC): what is written where.
//!
//! https://github.com/riscv/riscv-plic-spec/blob/master/riscv-plic.adoc
use vstd::prelude::*;
use crate::memlayout::{plic_sclaim, plic_senable, plic_spriority, PLIC, UART0_IRQ, VIRTIO0_IRQ};

verus! {

/// Where a hart asks what interrupt it should serve.
pub fn claim(hart: u64) -> (r: u64)
    requires
        hart < 0x1_0000,
    ensures
        r == PLIC + 0x20_1004 + hart * 0x2000,
{
    plic_sclaim(hart)
}

/// What a hart writes, and where, to say that it has served the interrupt.
pub fn complete(hart: u64, irq: u32) -> (r: (u64, u32))
    requires
        hart < 0x1_0000,
    ensures
        r == ((PLIC + 0x20_1004 + hart * 0x2000) as u64, irq),
{
    (plic_sclaim(hart), irq)
}

/// The writes that initialize the PLIC: priorities that are not zero, which would disable.
pub fn init() -> (r: Vec<(u64, u32)>)
    ensures
        r@ == seq![
            ((PLIC + UART0_IRQ * 4) as u64, 1u32),
            ((PLIC + VIRTIO0_IRQ * 4) as u64, 1u32),
        ],
{
    let mut writes: Vec<(u64, u32)> = Vec::new();
    writes.push((PLIC + UART0_IRQ as u64 * 4, 1));
    writes.push((PLIC + VIRTIO0_IRQ as u64 * 4, 1));
    writes
}

/// The writes that initialize the PLIC for a hart.
pub fn init_hart(hart: u64) -> (r: Vec<(u64, u32)>)
    requires
        hart < 0x1_0000,
    ensures
        r@ == seq![
            (
                (PLIC + 0x2080 + hart * 0x100) as u64,
                ((1u32 << UART0_IRQ) | (1u32 << VIRTIO0_IRQ)) as u32,
            ),
            ((PLIC + 0x20_1000 + hart * 0x2000) as u64, 0u32),
        ],
{
    let mut writes: Vec<(u64, u32)> = Vec::new();
    // set enable bits for this hart's S-mode for uart and virtio disk
    writes.push((plic_senable(hart), (1u32 << UART0_IRQ) | (1u32 << VIRTIO0_IRQ)));
    // set this hart's S-mode priority threshold to 0
    writes.push((plic_spriority(hart), 0));
    writes
}

} // verus!
