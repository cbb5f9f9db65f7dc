//! System calls: their arguments, and which call is which.
use vstd::prelude::*;
use crate::file::File;
use crate::kalloc::Kmem;
use crate::param::NOFILE;
use crate::proc::{copy_from_user, ProcData, TrapFrame};
use crate::vm::uvm::kmem_ok;
use crate::vm::{UserMem, VA};

pub mod call_laws;
pub mod dispatch;
pub mod laws;

pub use crate::abi::{SysError, Syscall};

verus! {

/// The bytes of the character with the number `c`.
pub open spec fn char_bytes(c: u8) -> Seq<u8> {
    if c < 0x80 {
        seq![c]
    } else {
        seq![(0xc0 + c / 0x40) as u8, (0x80 + c % 0x40) as u8]
    }
}

impl UserMem {
    /// Fetching a null-terminated string of at most `max - i` characters from `addr + i`, after
    /// the bytes `acc`. `None` where an address overflows or is reserved.
    pub open spec fn fetch(self, size: int, addr: int, max: int, i: int, acc: Seq<u8>) -> Option<
        (UserMem, Result<Seq<u8>, SysError>),
    >
        decreases max - i,
    {
        if i >= max {
            Some((self, Ok(acc)))
        } else if addr + i > u64::MAX {
            None
        } else {
            match self.copy_from(size, addr + i, 1, seq![]) {
                None => None,
                Some((m, Err(_))) => Some((m, Err(SysError::BadAddress))),
                Some((m, Ok(bytes))) => if bytes[0] == 0 {
                    Some((m, Ok(acc)))
                } else {
                    m.fetch(size, addr, max, i + 1, acc + char_bytes(bytes[0]))
                },
            }
        }
    }
}

/// The open file of a descriptor, as an argument gives it.
pub open spec fn file_of(open: Seq<Option<File>>, fd: i64) -> Result<(usize, File), SysError> {
    if 0 <= fd < NOFILE && open[fd as int] is Some {
        Ok((fd as usize, open[fd as int]->0))
    } else {
        Err(SysError::BadDescriptor)
    }
}

/// Wrapper for extracting typed syscall arguments from trapframe.
#[derive(Debug, Clone, Copy)]
pub struct SyscallArgs {
    trapframe: TrapFrame,
}

impl SyscallArgs {
    /// The registers that hold the arguments.
    pub closed spec fn frame(self) -> TrapFrame {
        self.trapframe
    }

    /// The argument at the given index.
    pub open spec fn arg(self, index: int) -> u64 {
        if index == 0 {
            self.frame().a0
        } else if index == 1 {
            self.frame().a1
        } else if index == 2 {
            self.frame().a2
        } else if index == 3 {
            self.frame().a3
        } else if index == 4 {
            self.frame().a4
        } else {
            self.frame().a5
        }
    }

    /// Creates a new SyscallArgs
    pub fn new(trapframe: TrapFrame) -> (r: Self)
        ensures
            r.frame() == trapframe,
    {
        SyscallArgs { trapframe }
    }

    /// Returns the argument at the given index as a number.
    pub fn get_raw(&self, index: usize) -> (r: u64)
        requires
            index < 6,
        ensures
            r == self.arg(index as int),
    {
        match index {
            0 => self.trapframe.a0,
            1 => self.trapframe.a1,
            2 => self.trapframe.a2,
            3 => self.trapframe.a3,
            4 => self.trapframe.a4,
            _ => self.trapframe.a5,
        }
    }

    /// Returns the argument at the given index as a signed number.
    pub fn get_int(&self, index: usize) -> (r: i64)
        requires
            index < 6,
        ensures
            r == self.arg(index as int) as i64,
    {
        self.get_raw(index) as i64
    }

    /// Returns the argument at the given index as a virtual address.
    ///
    /// Does not check for legality, since copying from and to user space will do that.
    pub fn get_addr(&self, index: usize) -> (r: VA)
        requires
            index < 6,
        ensures
            r.0 == self.arg(index as int),
    {
        VA(self.get_raw(index))
    }

    /// Fetch the nth word-sized system call argument as a file descriptor and return both the
    /// descriptor and the corresponding `File`.
    pub fn get_file(&self, index: usize, data: &ProcData) -> (r: Result<(usize, File), SysError>)
        requires
            index < 6,
            data.open_files@.len() == NOFILE,
        ensures
            r == file_of(data.open_files@, self.arg(index as int) as i64),
    {
        let fd = self.get_int(index);
        if fd < 0 || fd >= NOFILE as i64 {
            return Err(SysError::BadDescriptor);
        }
        match data.open_files[fd as usize] {
            Some(file) => Ok((fd as usize, file)),
            None => Err(SysError::BadDescriptor),
        }
    }
}

/// Fetches a null-terminated string from user space: its bytes.
pub fn fetch_string(data: &mut ProcData, kmem: &mut Kmem, addr: VA, max: usize) -> (r: Result<
    Vec<u8>,
    SysError,
>)
    requires
        old(kmem).wf(),
        old(data).ready(old(kmem)@),
        old(data).mem(old(kmem)@).fetch(
            old(data).size as int,
            addr.0 as int,
            max as int,
            0,
            seq![],
        ) is Some,
    ensures
        final(kmem).wf(),
        old(data).touched(old(kmem)@, *final(data), final(kmem)@),
        old(data).settled(old(kmem)@) ==> final(data).settled(final(kmem)@),
        ({
            let (m, s) = old(data).mem(old(kmem)@).fetch(
                old(data).size as int,
                addr.0 as int,
                max as int,
                0,
                seq![],
            )->0;
            &&& final(data).mem(final(kmem)@) == m
            &&& match s {
                Ok(s) => r is Ok && r->Ok_0@ == s,
                Err(e) => r is Err && r->Err_0 == e,
            }
        }),
{
    let ghost d0 = *data;
    let ghost k0 = kmem@;
    let ghost want = data.mem(k0).fetch(data.size as int, addr.0 as int, max as int, 0, seq![]);
    let mut result: Vec<u8> = Vec::new();
    proof {
        kmem.lemma_wf();
        data.lemma_touched_refl(k0);
        assert(result@ =~= seq![]);
    }
    let mut i: usize = 0;
    while i < max
        invariant
            d0 == *old(data),
            k0 == old(kmem)@,
            kmem_ok(k0),
            d0.ready(k0),
            kmem.wf(),
            data.ready(kmem@),
            d0.touched(k0, *data, kmem@),
            d0.settled(k0) ==> data.settled(kmem@),
            i <= max,
            want is Some,
            want == d0.mem(k0).fetch(d0.size as int, addr.0 as int, max as int, 0, seq![]),
            want == data.mem(kmem@).fetch(
                d0.size as int,
                addr.0 as int,
                max as int,
                i as int,
                result@,
            ),
        decreases max - i,
    {
        let ghost d1 = *data;
        let ghost k1 = kmem@;
        proof {
            kmem.lemma_wf();
        }
        let mut buf: Vec<u8> = Vec::new();
        assert(buf@ =~= seq![]);
        let copied = copy_from_user(data, kmem, VA(addr.0 + i as u64), &mut buf, 1);
        proof {
            d0.lemma_touched_trans(k0, d1, k1, *data, kmem@);
        }
        if copied.is_err() {
            return Err(SysError::BadAddress);
        }
        let c: u8 = buf[0];
        if c == 0 {
            return Ok(result);
        }
        let ghost before = result@;
        if c < 0x80 {
            result.push(c);
        } else {
            result.push(0xc0 + c / 0x40);
            result.push(0x80 + c % 0x40);
        }
        assert(result@ =~= before + char_bytes(c));
        i += 1;
    }
    Ok(result)
}

} // verus!
