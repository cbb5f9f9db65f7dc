//! Virtual memory: page tables and the memory of processes.
use vstd::prelude::*;
use crate::riscv::{
    entry_of,
    flags_of,
    page_of,
    pa_to_pte,
    pg_round_down,
    pg_round_up,
    pte_flags,
    pte_to_pa,
    px,
    round_down,
    round_up,
    PGSIZE,
    PTE_COW,
    PTE_R,
    PTE_U,
    PTE_V,
    PTE_W,
    PTE_X,
};

pub mod bytes;
pub mod copy;
pub mod fork;
pub mod image;
pub mod kvm;
pub mod laws;
pub mod pagetable;
pub mod reserved;
pub mod usermem;
pub mod uvm;
pub mod within;

pub use pagetable::PageTable;
pub use usermem::{UserMem, UserPage};
pub use uvm::Uvm;

verus! {

/// What can go wrong with virtual memory.
#[derive(Debug, Clone, Copy, PartialEq, Eq, Structural)]
pub enum VmError {
    Alloc,
    InvalidAddress,
    InvalidPage,
    InvalidPte,
    Fs,
}

impl VmError {
    /// The message for the error.
    pub open spec fn text(self) -> Seq<char> {
        match self {
            VmError::Alloc => "allocation error"@,
            VmError::InvalidAddress => "invalid address"@,
            VmError::InvalidPage => "invalid page"@,
            VmError::InvalidPte => "invalid page table entry"@,
            VmError::Fs => "filesystem error"@,
        }
    }

    /// The message for the error.
    pub fn as_str(&self) -> (r: &'static str)
        ensures
            r@ == self.text(),
    {
        match self {
            VmError::Alloc => "allocation error",
            VmError::InvalidAddress => "invalid address",
            VmError::InvalidPage => "invalid page",
            VmError::InvalidPte => "invalid page table entry",
            VmError::Fs => "filesystem error",
        }
    }
}

/// A physical address
#[derive(Debug, Clone, Copy, PartialEq, Eq, Structural)]
pub struct PA(pub u64);

impl PA {
    /// Creates a new PA.
    pub fn new(address: u64) -> (r: Self)
        ensures
            r.0 == address,
    {
        PA(address)
    }

    /// Returns the underlying value of the PA.
    pub fn as_u64(&self) -> (r: u64)
        ensures
            r == self.0,
    {
        self.0
    }

    /// Returns the PA as a PageTableEntry.
    pub fn as_pte(&self) -> (r: PageTableEntry)
        ensures
            r.0 == entry_of(self.0),
    {
        PageTableEntry(pa_to_pte(self.0))
    }
}

/// A virtual address
#[derive(Debug, Clone, Copy, PartialEq, Eq, Structural)]
pub struct VA(pub u64);

impl VA {
    /// Creates a new VA.
    pub fn new(address: u64) -> (r: Self)
        ensures
            r.0 == address,
    {
        VA(address)
    }

    /// Returns the underlying value of the VA.
    pub fn as_u64(&self) -> (r: u64)
        ensures
            r == self.0,
    {
        self.0
    }

    pub fn round_down(&self) -> (r: Self)
        ensures
            r.0 == round_down(self.0 as int),
    {
        VA(pg_round_down(self.0))
    }

    pub fn round_up(&self) -> (r: Self)
        requires
            self.0 + PGSIZE <= u64::MAX,
        ensures
            r.0 == round_up(self.0 as int),
    {
        VA(pg_round_up(self.0))
    }

    /// Returns the page table index for the given level.
    pub fn px(&self, level: u64) -> (r: u64)
        requires
            level <= 2,
        ensures
            r == crate::riscv::index_of(level as int, self.0 as int),
            r < 512,
    {
        px(level, self.0)
    }
}

/// An entry of a page table
#[derive(Debug, Clone, Copy, PartialEq, Eq, Structural)]
pub struct PageTableEntry(pub u64);

/// The flag `bit` is set in the entry `pte`.
pub open spec fn flag(pte: u64, bit: u64) -> bool {
    pte & bit != 0
}

/// An empty entry is not valid.
pub proof fn lemma_zero_invalid()
    ensures
        !flag(0, PTE_V),
{
    assert(0u64 & 1u64 == 0) by (bit_vector);
}

/// The entry `pte` is for a page, not for a page table.
pub open spec fn leaf(pte: u64) -> bool {
    pte & (PTE_X | PTE_W | PTE_R) != 0
}

impl PageTableEntry {
    /// Check if the PTE is valid.
    pub fn is_v(&self) -> (r: bool)
        ensures
            r == flag(self.0, PTE_V),
    {
        self.0 & PTE_V != 0
    }

    /// Check if the PTE is accessible by user mode instructions.
    pub fn is_u(&self) -> (r: bool)
        ensures
            r == flag(self.0, PTE_U),
    {
        self.0 & PTE_U != 0
    }

    /// Check if the PTE is writable.
    pub fn is_w(&self) -> (r: bool)
        ensures
            r == flag(self.0, PTE_W),
    {
        self.0 & PTE_W != 0
    }

    /// Set or clear the PTE_W (write permission) bit.
    pub fn set_w(&mut self, on: bool)
        ensures
            final(self).0 == (if on {
                old(self).0 | PTE_W
            } else {
                old(self).0 & !PTE_W
            }),
    {
        if on {
            self.0 = self.0 | PTE_W;
        } else {
            self.0 = self.0 & !PTE_W;
        }
    }

    /// Check if the PTE is for a copy-on-write page.
    pub fn is_cow(&self) -> (r: bool)
        ensures
            r == flag(self.0, PTE_COW),
    {
        self.0 & PTE_COW != 0
    }

    /// Return flags of the PTE (least significant 10 bits).
    pub fn flags(&self) -> (r: u64)
        ensures
            r == flags_of(self.0),
    {
        pte_flags(self.0)
    }

    /// Check if the PTE is a leaf (pointing to a PA).
    pub fn is_leaf(&self) -> (r: bool)
        ensures
            r == leaf(self.0),
    {
        // If the PTE is a leaf, it should have at least one of the permission bits set.
        self.0 & (PTE_X | PTE_W | PTE_R) != 0
    }

    /// Returns the underlying value of the PTE.
    pub fn as_u64(&self) -> (r: u64)
        ensures
            r == self.0,
    {
        self.0
    }

    /// Returns the PA that this PTE points to.
    pub fn as_pa(&self) -> (r: PA)
        ensures
            r.0 == page_of(self.0),
    {
        PA(pte_to_pa(self.0))
    }
}

} // verus!
