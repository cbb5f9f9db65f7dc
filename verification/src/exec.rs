//! Executing programs.
use vstd::prelude::*;
use crate::le::{get_u16, get_u32, get_u64, u16_at, u32_at, u64_at};
use crate::riscv::{PGSIZE, PTE_W, PTE_X};

pub mod laws;
pub mod load;
pub mod run;
pub mod run_laws;
pub mod stack;
pub mod stack_laws;

verus! {

/// What can go wrong when a program is executed.
#[derive(Debug, Clone, Copy, PartialEq, Eq, Structural)]
pub enum ExecError {
    Alloc,
    Elf,
    Header,
    Read,
    Memory,
}

impl ExecError {
    /// The message for the error.
    pub open spec fn text(self) -> Seq<char> {
        match self {
            ExecError::Alloc => "allocation error"@,
            ExecError::Elf => "invalid elf file"@,
            ExecError::Header => "invalid program header"@,
            ExecError::Read => "read error"@,
            ExecError::Memory => "memory error"@,
        }
    }

    /// The message for the error.
    pub fn as_str(&self) -> (r: &'static str)
        ensures
            r@ == self.text(),
    {
        match self {
            ExecError::Alloc => "allocation error",
            ExecError::Elf => "invalid elf file",
            ExecError::Header => "invalid program header",
            ExecError::Read => "read error",
            ExecError::Memory => "memory error",
        }
    }
}

/// "\x7FELF" in little endian
pub const ELF_MAGIC: u32 = 0x464C_457F;

/// File Header: what is used of it
#[derive(Debug, Clone, Copy, PartialEq, Eq, Structural)]
pub struct ElfHeader {
    pub magic: u32,
    /// Where the program starts
    pub entry: u64,
    /// Where the program headers are in the file
    pub phoff: u64,
    /// How many of them there are
    pub phnum: u16,
}

impl ElfHeader {
    /// Size of the header in the file
    pub const SIZE: usize = 64;

    /// The header with the given bytes.
    pub open spec fn of(bytes: Seq<u8>) -> ElfHeader {
        ElfHeader {
            magic: u32_at(bytes, 0),
            entry: u64_at(bytes, 24),
            phoff: u64_at(bytes, 32),
            phnum: u16_at(bytes, 56),
        }
    }

    pub fn from_bytes(bytes: &[u8]) -> (r: Self)
        requires
            bytes@.len() == ElfHeader::SIZE,
        ensures
            r == ElfHeader::of(bytes@),
    {
        ElfHeader {
            magic: get_u32(bytes, 0),
            entry: get_u64(bytes, 24),
            phoff: get_u64(bytes, 32),
            phnum: get_u16(bytes, 56),
        }
    }
}

/// Program Section Header: what is used of it
#[derive(Debug, Clone, Copy, PartialEq, Eq, Structural)]
pub struct ProgramHeader {
    pub typ: u32,
    pub flags: u32,
    pub offset: u64,
    pub vaddr: u64,
    pub filesz: u64,
    pub memsz: u64,
}

impl ProgramHeader {
    /// Size of the header in the file
    pub const SIZE: usize = 56;

    /// The type of a section that is to be loaded
    pub const ELF_PROG_LOAD: u32 = 1;

    /// The header with the given bytes.
    pub open spec fn of(bytes: Seq<u8>) -> ProgramHeader {
        ProgramHeader {
            typ: u32_at(bytes, 0),
            flags: u32_at(bytes, 4),
            offset: u64_at(bytes, 8),
            vaddr: u64_at(bytes, 16),
            filesz: u64_at(bytes, 32),
            memsz: u64_at(bytes, 40),
        }
    }

    pub fn from_bytes(bytes: &[u8]) -> (r: Self)
        requires
            bytes@.len() == ProgramHeader::SIZE,
        ensures
            r == ProgramHeader::of(bytes@),
    {
        ProgramHeader {
            typ: get_u32(bytes, 0),
            flags: get_u32(bytes, 4),
            offset: get_u64(bytes, 8),
            vaddr: get_u64(bytes, 16),
            filesz: get_u64(bytes, 32),
            memsz: get_u64(bytes, 40),
        }
    }

    /// The permissions of the section's pages, beyond reading.
    pub open spec fn perms(self) -> u64 {
        if self.flags & 1 != 0 {
            if self.flags & 2 != 0 {
                PTE_X | PTE_W
            } else {
                PTE_X
            }
        } else if self.flags & 2 != 0 {
            PTE_W
        } else {
            0
        }
    }

    pub fn get_perms(&self) -> (r: u64)
        ensures
            r == self.perms(),
            r < 0x400,
    {
        proof {
            assert(8u64 | 4u64 < 0x400) by (bit_vector);
        }
        if self.flags & 1 != 0 {
            if self.flags & 2 != 0 {
                PTE_X | PTE_W
            } else {
                PTE_X
            }
        } else if self.flags & 2 != 0 {
            PTE_W
        } else {
            0
        }
    }

    /// The section cannot be loaded.
    pub open spec fn bad(self) -> bool {
        self.memsz < self.filesz || self.vaddr + self.memsz > u64::MAX || self.vaddr % PGSIZE != 0
    }
}

} // verus!
