//! The machine's words: control registers, page-table entries and addresses.
//!
//! Reading and writing the registers themselves is left to the caller; here is what their bits
//! mean.
use vstd::prelude::*;
use vstd::std_specs::convert::FromSpecImpl;

verus! {

/// Machine Previous Privilege Mode bits of mstatus
pub const MPP_MASK: u64 = 0x1800;

/// Machine Previous Privilege Mode: supervisor
pub const MPP_SUPERVISOR: u64 = 1;

/// Supervisor Previous Privilege bit of sstatus, 1=Supervisor, 0=User
pub const SPP: u64 = 0x100;

/// Supervisor Previous Interrupt Enable bit of sstatus
pub const SPIE: u64 = 0x20;

/// Supervisor Interrupt Enable bit of sstatus
pub const SIE: u64 = 2;

/// External interrupts bit of sie
pub const SEIE: u64 = 0x200;

/// Timer interrupts bit of sie and mie
pub const STIE: u64 = 0x20;

/// Software interrupts bit of sie
pub const SSIE: u64 = 2;

/// The value of mstatus with its previous privilege mode set to `mode`.
pub fn set_mpp(mstatus: u64, mode: u64) -> (r: u64)
    requires
        mode < 4,
    ensures
        r & MPP_MASK == mode << 11,
        r & !MPP_MASK == mstatus & !MPP_MASK,
{
    let r = (mstatus & !MPP_MASK) | (mode << 11);
    assert(r & 0x1800 == mode << 11 && r & !0x1800u64 == mstatus & !0x1800u64) by (bit_vector)
        requires
            mode < 4,
            r == (mstatus & !0x1800u64) | (mode << 11),
    ;
    r
}

/// The value of sstatus with interrupts enabled.
pub fn enable(sstatus: u64) -> (r: u64)
    ensures
        r == sstatus | SIE,
{
    sstatus | SIE
}

/// The value of sstatus with interrupts disabled.
pub fn disable(sstatus: u64) -> (r: u64)
    ensures
        r == sstatus & !SIE,
{
    sstatus & !SIE
}

/// Whether interrupts are enabled in sstatus.
pub fn get(sstatus: u64) -> (r: bool)
    ensures
        r == (sstatus & SIE != 0),
{
    (sstatus & SIE) != 0
}

/// Enabling interrupts enables them, disabling disables them, and neither touches another bit.
pub proof fn law_interrupt_enable(sstatus: u64)
    ensures
        (sstatus | SIE) & SIE != 0,
        (sstatus & !SIE) & SIE == 0,
        (sstatus | SIE) & !SIE == sstatus & !SIE,
        (sstatus & !SIE) & !SIE == sstatus & !SIE,
{
    assert((sstatus | 2) & 2 != 0 && (sstatus & !2u64) & 2 == 0 && (sstatus | 2) & !2u64 == sstatus
        & !2u64 && (sstatus & !2u64) & !2u64 == sstatus & !2u64) by (bit_vector);
}

/// Why a trap was taken.
#[derive(Debug, Clone, Copy, PartialEq, Eq, Structural)]
pub enum Trap {
    Interrupt(Interrupt),
    Exception(Exception),
}

/// Kinds of interrupts
#[derive(Debug, Clone, Copy, PartialEq, Eq, Structural)]
pub enum Interrupt {
    UserSoftware,
    SupervisorSoftware,
    UserTimer,
    SupervisorTimer,
    SupervisorExternal,
    Unknown,
}

/// Kinds of exceptions
#[derive(Debug, Clone, Copy, PartialEq, Eq, Structural)]
pub enum Exception {
    InstructionAddressMisaligned,
    InstructionAccessFault,
    IllegalInstruction,
    Breakpoint,
    LoadAccessFault,
    StoreAddressMisaligned,
    StoreAccessFault,
    EnvironmentCall,
    InstructionPageFault,
    LoadPageFault,
    StorePageFault,
    Unknown,
}

impl Interrupt {
    /// The interrupt with the given number.
    pub open spec fn of(code: u64) -> Interrupt {
        if code == 0 {
            Interrupt::UserSoftware
        } else if code == 1 {
            Interrupt::SupervisorSoftware
        } else if code == 4 {
            Interrupt::UserTimer
        } else if code == 5 {
            Interrupt::SupervisorTimer
        } else if code == 9 {
            Interrupt::SupervisorExternal
        } else {
            Interrupt::Unknown
        }
    }
}

impl Exception {
    /// The exception with the given number.
    pub open spec fn of(code: u64) -> Exception {
        if code == 0 {
            Exception::InstructionAddressMisaligned
        } else if code == 1 {
            Exception::InstructionAccessFault
        } else if code == 2 {
            Exception::IllegalInstruction
        } else if code == 3 {
            Exception::Breakpoint
        } else if code == 5 {
            Exception::LoadAccessFault
        } else if code == 6 {
            Exception::StoreAddressMisaligned
        } else if code == 7 {
            Exception::StoreAccessFault
        } else if code == 8 {
            Exception::EnvironmentCall
        } else if code == 12 {
            Exception::InstructionPageFault
        } else if code == 13 {
            Exception::LoadPageFault
        } else if code == 15 {
            Exception::StorePageFault
        } else {
            Exception::Unknown
        }
    }
}

impl From<u64> for Interrupt {
    fn from(value: u64) -> (r: Self) {
        match value {
            0 => Interrupt::UserSoftware,
            1 => Interrupt::SupervisorSoftware,
            4 => Interrupt::UserTimer,
            5 => Interrupt::SupervisorTimer,
            9 => Interrupt::SupervisorExternal,
            _ => Interrupt::Unknown,
        }
    }
}

impl FromSpecImpl<u64> for Interrupt {
    open spec fn obeys_from_spec() -> bool {
        true
    }

    open spec fn from_spec(value: u64) -> Interrupt {
        Interrupt::of(value)
    }
}

impl From<u64> for Exception {
    fn from(value: u64) -> (r: Self) {
        match value {
            0 => Exception::InstructionAddressMisaligned,
            1 => Exception::InstructionAccessFault,
            2 => Exception::IllegalInstruction,
            3 => Exception::Breakpoint,
            5 => Exception::LoadAccessFault,
            6 => Exception::StoreAddressMisaligned,
            7 => Exception::StoreAccessFault,
            8 => Exception::EnvironmentCall,
            12 => Exception::InstructionPageFault,
            13 => Exception::LoadPageFault,
            15 => Exception::StorePageFault,
            _ => Exception::Unknown,
        }
    }
}

impl FromSpecImpl<u64> for Exception {
    open spec fn obeys_from_spec() -> bool {
        true
    }

    open spec fn from_spec(value: u64) -> Exception {
        Exception::of(value)
    }
}

/// Supervisor Trap Cause, scause: the top bit tells interrupts from exceptions, the rest is the
/// number.
#[derive(Debug, Clone, Copy)]
pub struct Scause {
    bits: u64,
}

/// The top bit of a word.
pub const TOP_BIT: u64 = 0x8000_0000_0000_0000;

impl Scause {
    /// The register's value.
    pub closed spec fn value(self) -> u64 {
        self.bits
    }

    /// The trap that a value of the register stands for.
    pub open spec fn trap(bits: u64) -> Trap {
        if bits >= TOP_BIT {
            Trap::Interrupt(Interrupt::of((bits - TOP_BIT) as u64))
        } else {
            Trap::Exception(Exception::of(bits))
        }
    }

    pub fn bits(&self) -> (r: u64)
        ensures
            r == self.value(),
    {
        self.bits
    }

    pub fn code(&self) -> (r: u64)
        ensures
            r == self.value() % TOP_BIT,
    {
        let bits = self.bits;
        assert(bits & !0x8000_0000_0000_0000u64 == bits % 0x8000_0000_0000_0000u64) by (bit_vector);
        self.bits & !TOP_BIT
    }

    pub fn is_interrupt(&self) -> (r: bool)
        ensures
            r == (self.value() >= TOP_BIT),
    {
        let bits = self.bits;
        assert((bits & 0x8000_0000_0000_0000u64 != 0) == (bits >= 0x8000_0000_0000_0000u64))
            by (bit_vector);
        self.bits & TOP_BIT != 0
    }

    pub fn is_exception(&self) -> (r: bool)
        ensures
            r == (self.value() < TOP_BIT),
    {
        !self.is_interrupt()
    }

    /// What the trap is.
    pub fn cause(&self) -> (r: Trap)
        ensures
            r == Self::trap(self.value()),
    {
        if self.is_interrupt() {
            Trap::Interrupt(Interrupt::from(self.code()))
        } else {
            Trap::Exception(Exception::from(self.code()))
        }
    }

    /// The register with the given value.
    pub fn new(bits: u64) -> (r: Self)
        ensures
            r.value() == bits,
    {
        Scause { bits }
    }
}

/// The mode bits of satp for riscv's sv39 page table scheme
pub const SV39: u64 = 0x8000_0000_0000_0000;

/// The value of satp for a page table at `pagetable`.
pub fn make(pagetable: u64) -> (r: u64)
    ensures
        r == SV39 | (pagetable >> 12),
{
    SV39 | (pagetable >> 12)
}

/// Number of bits to offset within a page
pub const PGSHIFT: u64 = 12;

/// Number of bytes per page
pub const PGSIZE: u64 = 4096;

/// The first page boundary at or after `size`.
pub open spec fn round_up(size: int) -> int {
    (size + PGSIZE - 1) / (PGSIZE as int) * PGSIZE
}

/// The last page boundary at or before `addr`.
pub open spec fn round_down(addr: int) -> int {
    addr - addr % (PGSIZE as int)
}

proof fn lemma_mask_page(a: u64)
    ensures
        a & !4095u64 == a - a % 4096,
{
    assert(a & !4095u64 == a - a % 4096) by (bit_vector);
}

/// The first page boundary at or after `size`.
pub fn pg_round_up(size: u64) -> (r: u64)
    requires
        size + PGSIZE <= u64::MAX,
    ensures
        r == round_up(size as int),
{
    proof {
        lemma_mask_page((size + PGSIZE - 1) as u64);
    }
    (size + PGSIZE - 1) & !(PGSIZE - 1)
}

/// The last page boundary at or before `addr`.
pub fn pg_round_down(addr: u64) -> (r: u64)
    ensures
        r == round_down(addr as int),
{
    proof {
        lemma_mask_page(addr);
    }
    addr & !(PGSIZE - 1)
}

/// Rounding gives a page boundary, the nearest one in its direction, and leaves boundaries alone.
pub proof fn law_rounding(a: int)
    requires
        0 <= a,
    ensures
        round_down(a) % (PGSIZE as int) == 0,
        round_up(a) % (PGSIZE as int) == 0,
        round_down(a) <= a < round_down(a) + PGSIZE,
        round_up(a) - PGSIZE < a <= round_up(a),
        a % (PGSIZE as int) == 0 ==> round_down(a) == a && round_up(a) == a,
{
}

/// Valid bit
pub const PTE_V: u64 = 1;

/// Readable bit
pub const PTE_R: u64 = 2;

/// Writable bit
pub const PTE_W: u64 = 4;

/// Executable bit
pub const PTE_X: u64 = 8;

/// User bit (if not set, can only be used in supervisor mode)
pub const PTE_U: u64 = 16;

/// Copy-On-Write bit (if set, page is read-only but can be copied to a new page on write)
pub const PTE_COW: u64 = 256;

/// The entry for the page at `pa`, without flags.
pub open spec fn entry_of(pa: u64) -> u64 {
    (pa >> 12) << 10
}

/// The address of the page that the entry `pte` is for.
pub open spec fn page_of(pte: u64) -> u64 {
    (pte >> 10) << 12
}

/// The flags of the entry `pte`.
pub open spec fn flags_of(pte: u64) -> u64 {
    pte & 0x3FF
}

/// The entry for the page at `pa`, without flags.
pub fn pa_to_pte(pa: u64) -> (r: u64)
    ensures
        r == entry_of(pa),
{
    (pa >> 12) << 10
}

/// The address of the page that the entry `pte` is for.
pub fn pte_to_pa(pte: u64) -> (r: u64)
    ensures
        r == page_of(pte),
{
    (pte >> 10) << 12
}

/// The flags of the entry `pte`.
pub fn pte_flags(pte: u64) -> (r: u64)
    ensures
        r == flags_of(pte),
{
    pte & 0x3FF
}

/// The entry `pte` has no bits beside those for its page and its flags.
pub open spec fn plain(pte: u64) -> bool {
    pte < 0x4000_0000_0000_0000
}

/// An entry with no other bits is made of its page and its flags.
pub proof fn law_pte_parts(pte: u64)
    requires
        plain(pte),
    ensures
        entry_of(page_of(pte)) | flags_of(pte) == pte,
{
    assert((((pte >> 10) << 12) >> 12) << 10 | (pte & 0x3FF) == pte) by (bit_vector)
        requires
            pte < 0x4000_0000_0000_0000,
    ;
}

/// An entry made of a page and flags gives both back, and has no other bits.
pub proof fn law_pte_roundtrip(pa: u64, flags: u64)
    requires
        pa % PGSIZE == 0,
        flags < 0x400,
    ensures
        page_of(entry_of(pa) | flags) == pa,
        flags_of(entry_of(pa) | flags) == flags,
        plain(entry_of(pa) | flags),
{
    assert((((((pa >> 12) << 10) | flags) >> 10) << 12) == pa) by (bit_vector)
        requires
            pa % 4096 == 0,
            flags < 0x400,
    ;
    assert((((pa >> 12) << 10) | flags) & 0x3FF == flags && (((pa >> 12) << 10) | flags)
        < 0x4000_0000_0000_0000) by (bit_vector)
        requires
            flags < 0x400,
    ;
}

/// Mask of the three 9-bit page table indices of a virtual address
pub const PXMASK: u64 = 0x1FF;

/// The page table index of `va` for the given level.
pub open spec fn index_of(level: int, va: int) -> int {
    if level == 0 {
        va / 0x1000 % 512
    } else if level == 1 {
        va / 0x20_0000 % 512
    } else {
        va / 0x4000_0000 % 512
    }
}

/// Returns the amount to shift-left to get to the correct page table index
pub fn px_shift(level: u64) -> (r: u64)
    requires
        level <= 2,
    ensures
        r == 12 + 9 * level,
{
    // 12-bit page offset + 9-bit per level
    PGSHIFT + (9 * level)
}

/// Returns the page table index of the va for the corresponding level
pub fn px(level: u64, va: u64) -> (r: u64)
    requires
        level <= 2,
    ensures
        r == index_of(level as int, va as int),
        r < 512,
{
    assert((va >> 12) & 0x1FF == va / 0x1000 % 512 && (va >> 21) & 0x1FF == va / 0x20_0000 % 512 && (
    va >> 30) & 0x1FF == va / 0x4000_0000 % 512) by (bit_vector);
    (va >> px_shift(level)) & PXMASK
}

/// One beyond the highest possible virtual address
/// (3 x 9-bit pages) + 12-bit offset
///
/// This is 1-bit less than the max allowed by Sv39 to avoid having to sign-extend virtual addresses
/// that have the high bit set
pub const MAXVA: u64 = 0x40_0000_0000;

/// What the cause of a trap says: the top bit is set for interrupts. Of the exceptions, those for pages
/// are told apart by what was tried, and no other number stands for one.
pub proof fn law_causes(bits: u64)
    ensures
        Scause::trap(bits) is Interrupt <==> bits >= 0x8000_0000_0000_0000,
        Scause::trap(bits) == Trap::Exception(Exception::EnvironmentCall) <==> bits == 8,
        Scause::trap(bits) == Trap::Exception(Exception::InstructionPageFault) <==> bits == 12,
        Scause::trap(bits) == Trap::Exception(Exception::LoadPageFault) <==> bits == 13,
        Scause::trap(bits) == Trap::Exception(Exception::StorePageFault) <==> bits == 15,
        Scause::trap(bits) == Trap::Exception(Exception::IllegalInstruction) <==> bits == 2,
        Scause::trap(bits) == Trap::Interrupt(Interrupt::SupervisorTimer) <==> bits
            == 0x8000_0000_0000_0005,
        Scause::trap(bits) == Trap::Interrupt(Interrupt::SupervisorExternal) <==> bits
            == 0x8000_0000_0000_0009,
{
}

} // verus!
