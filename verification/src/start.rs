//! Starting a hart: the values of its control registers.
use vstd::prelude::*;
use crate::riscv::{set_mpp, MPP_MASK, MPP_SUPERVISOR, SEIE, SSIE, STIE};
use crate::trap::TICK;

verus! {

/// Supervisor-mode timer interrupts in mie
pub const MIE_STIE: u64 = 0x20;

/// The sstc extension in menvcfg
pub const SSTC: u64 = 0x8000_0000_0000_0000;

/// What the registers for timer interrupts are to hold.
#[derive(Debug, Clone, Copy, PartialEq, Eq, Structural)]
pub struct Timer {
    pub mie: u64,
    pub menvcfg: u64,
    pub mcounteren: u64,
    /// When the first timer interrupt is to come
    pub deadline: u64,
}

/// Ask a hart to generate timer interrupts: what the registers are to hold, given what they hold.
pub fn timer_init(mie: u64, menvcfg: u64, mcounteren: u64, time: u64) -> (r: Timer)
    requires
        time + TICK <= u64::MAX,
    ensures
        r == (Timer {
            mie: mie | MIE_STIE,
            menvcfg: menvcfg | SSTC,
            mcounteren: mcounteren | 2,
            deadline: (time + TICK) as u64,
        }),
{
    Timer {
        // enable supervisor-mode timer interrupts.
        mie: mie | MIE_STIE,
        // enable the sstc extension.
        menvcfg: menvcfg | SSTC,
        // allow supervisor to use the timer.
        mcounteren: mcounteren | 2,
        // ask for the very first timer interrupt.
        deadline: time + TICK,
    }
}

/// What the registers of a hart are to hold when it enters the kernel.
#[derive(Debug, Clone, Copy, PartialEq, Eq, Structural)]
pub struct Start {
    pub mstatus: u64,
    pub mepc: u64,
    pub satp: u64,
    pub medeleg: u64,
    pub mideleg: u64,
    pub sie: u64,
    pub pmpaddr0: u64,
    pub pmpcfg0: u64,
    pub tp: u64,
}

/// What the registers of the hart `id` are to hold when it enters the kernel, at `main` and in
/// supervisor mode, given mstatus and sie.
pub fn start(mstatus: u64, main: u64, sie: u64, id: u64) -> (r: Start)
    ensures
        r.mstatus & MPP_MASK == MPP_SUPERVISOR << 11,
        r.mstatus & !MPP_MASK == mstatus & !MPP_MASK,
        r == (Start {
            mstatus: r.mstatus,
            mepc: main,
            satp: 0,
            medeleg: 0xffff,
            mideleg: 0xffff,
            sie: sie | SEIE | STIE | SSIE,
            pmpaddr0: 0x3f_ffff_ffff_ffff,
            pmpcfg0: 0xf,
            tp: id,
        }),
{
    Start {
        // set previous privilege mode to supervisor, the mode that `mret` goes "back" to
        mstatus: set_mpp(mstatus, MPP_SUPERVISOR),
        // the address that `mret` goes "back" to
        mepc: main,
        // disable virtual address translation in supervisor mode
        satp: 0,
        // delegate all interrupts and exceptions to supervisor mode
        medeleg: 0xffff,
        mideleg: 0xffff,
        sie: sie | SEIE | STIE | SSIE,
        // give supervisor mode access to all of physical memory
        pmpaddr0: 0x3f_ffff_ffff_ffff,
        pmpcfg0: 0xf,
        tp: id,
    }
}

} // verus!
