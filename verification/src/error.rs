//! Kernel errors.
use vstd::prelude::*;
use vstd::std_specs::convert::FromSpecImpl;
use crate::abi::SysError;
use crate::exec::ExecError;
use crate::fs::FsError;
use crate::vm::VmError;

verus! {

/// Kernel error codes.
#[derive(Debug, Clone, Copy, PartialEq, Eq, Structural)]
pub enum KernelError {
    Alloc,
    InvalidArgument,
    OutOfProc,
    Vm(VmError),
    Sys(SysError),
    Fs(FsError),
    Exec(ExecError),
}

impl From<VmError> for KernelError {
    fn from(value: VmError) -> (r: Self) {
        KernelError::Vm(value)
    }
}

impl FromSpecImpl<VmError> for KernelError {
    open spec fn obeys_from_spec() -> bool {
        true
    }

    open spec fn from_spec(value: VmError) -> KernelError {
        KernelError::Vm(value)
    }
}

impl From<SysError> for KernelError {
    fn from(value: SysError) -> (r: Self) {
        KernelError::Sys(value)
    }
}

impl FromSpecImpl<SysError> for KernelError {
    open spec fn obeys_from_spec() -> bool {
        true
    }

    open spec fn from_spec(value: SysError) -> KernelError {
        KernelError::Sys(value)
    }
}

impl From<FsError> for KernelError {
    fn from(value: FsError) -> (r: Self) {
        KernelError::Fs(value)
    }
}

impl FromSpecImpl<FsError> for KernelError {
    open spec fn obeys_from_spec() -> bool {
        true
    }

    open spec fn from_spec(value: FsError) -> KernelError {
        KernelError::Fs(value)
    }
}

impl From<ExecError> for KernelError {
    fn from(value: ExecError) -> (r: Self) {
        KernelError::Exec(value)
    }
}

impl FromSpecImpl<ExecError> for KernelError {
    open spec fn obeys_from_spec() -> bool {
        true
    }

    open spec fn from_spec(value: ExecError) -> KernelError {
        KernelError::Exec(value)
    }
}

impl KernelError {
    /// The message for the error.
    pub open spec fn text(self) -> Seq<char> {
        match self {
            KernelError::Alloc => "alloc error"@,
            KernelError::InvalidArgument => "invalid argument"@,
            KernelError::OutOfProc => "out of proc"@,
            KernelError::Sys(e) => "syscall error "@ + e.text(),
            KernelError::Vm(e) => "vm error "@ + e.text(),
            KernelError::Fs(e) => "filesystem error "@ + e.text(),
            KernelError::Exec(e) => "exec error "@ + e.text(),
        }
    }

    /// The message for the error.
    pub fn to_text(&self) -> (r: String)
        ensures
            r@ == self.text(),
    {
        match self {
            KernelError::Alloc => "alloc error".to_string(),
            KernelError::InvalidArgument => "invalid argument".to_string(),
            KernelError::OutOfProc => "out of proc".to_string(),
            KernelError::Sys(e) => join("syscall error ", e.as_str()),
            KernelError::Vm(e) => join("vm error ", e.as_str()),
            KernelError::Fs(e) => join("filesystem error ", e.as_str()),
            KernelError::Exec(e) => join("exec error ", e.as_str()),
        }
    }
}

/// The two strings one after the other.
fn join(a: &str, b: &str) -> (r: String)
    ensures
        r@ == a@ + b@,
{
    let mut s = a.to_string();
    s.append(b);
    s
}

} // verus!
