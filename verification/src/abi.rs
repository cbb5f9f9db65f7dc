//! System call numbers and error codes.
use vstd::prelude::*;
use vstd::std_specs::convert::FromSpecImpl;
use crate::fs::FsError;

verus! {

/// Syscall error codes using POSIX-standard numeric values.
///
/// Kernel encodes the negated code in the return register (`a0`).
/// User space decodes negative values back into `SysError` variants.
#[derive(Debug, Clone, Copy, PartialEq, Eq, Structural)]
pub enum SysError {
    NotPermitted,
    NoEntry,
    NoProcess,
    Interrupted,
    IoError,
    InvalidExecutable,
    BadDescriptor,
    NoChildren,
    ResourceUnavailable,
    OutOfMemory,
    BadAddress,
    AlreadyExists,
    CrossDeviceLink,
    NotDirectory,
    IsDirectory,
    InvalidArgument,
    FileTableFull,
    TooManyFiles,
    NoSpace,
    TooManyLinks,
    BrokenPipe,
    NameTooLong,
    NotImplemented,
    NotEmpty,
}

impl SysError {
    /// The error code for this error.
    pub open spec fn code(self) -> u16 {
        match self {
            SysError::NotPermitted => 1,
            SysError::NoEntry => 2,
            SysError::NoProcess => 3,
            SysError::Interrupted => 4,
            SysError::IoError => 5,
            SysError::InvalidExecutable => 8,
            SysError::BadDescriptor => 9,
            SysError::NoChildren => 10,
            SysError::ResourceUnavailable => 11,
            SysError::OutOfMemory => 12,
            SysError::BadAddress => 14,
            SysError::AlreadyExists => 17,
            SysError::CrossDeviceLink => 18,
            SysError::NotDirectory => 20,
            SysError::IsDirectory => 21,
            SysError::InvalidArgument => 22,
            SysError::FileTableFull => 23,
            SysError::TooManyFiles => 24,
            SysError::NoSpace => 28,
            SysError::TooManyLinks => 31,
            SysError::BrokenPipe => 32,
            SysError::NameTooLong => 36,
            SysError::NotImplemented => 38,
            SysError::NotEmpty => 39,
        }
    }

    /// The error that a code stands for.
    pub open spec fn of(code: u16) -> SysError {
        if code == 1 {
            SysError::NotPermitted
        } else if code == 2 {
            SysError::NoEntry
        } else if code == 3 {
            SysError::NoProcess
        } else if code == 4 {
            SysError::Interrupted
        } else if code == 5 {
            SysError::IoError
        } else if code == 8 {
            SysError::InvalidExecutable
        } else if code == 9 {
            SysError::BadDescriptor
        } else if code == 10 {
            SysError::NoChildren
        } else if code == 11 {
            SysError::ResourceUnavailable
        } else if code == 12 {
            SysError::OutOfMemory
        } else if code == 14 {
            SysError::BadAddress
        } else if code == 17 {
            SysError::AlreadyExists
        } else if code == 18 {
            SysError::CrossDeviceLink
        } else if code == 20 {
            SysError::NotDirectory
        } else if code == 21 {
            SysError::IsDirectory
        } else if code == 23 {
            SysError::FileTableFull
        } else if code == 24 {
            SysError::TooManyFiles
        } else if code == 28 {
            SysError::NoSpace
        } else if code == 31 {
            SysError::TooManyLinks
        } else if code == 32 {
            SysError::BrokenPipe
        } else if code == 36 {
            SysError::NameTooLong
        } else if code == 38 {
            SysError::NotImplemented
        } else if code == 39 {
            SysError::NotEmpty
        } else {
            SysError::InvalidArgument
        }
    }

    /// The message for the error.
    pub open spec fn text(self) -> Seq<char> {
        match self {
            SysError::NotPermitted => "operation not permitted"@,
            SysError::NoEntry => "no such file or directory"@,
            SysError::NoProcess => "no such process"@,
            SysError::Interrupted => "interrupted"@,
            SysError::IoError => "input/output error"@,
            SysError::InvalidExecutable => "exec format error"@,
            SysError::BadDescriptor => "bad file descriptor"@,
            SysError::NoChildren => "no child processes"@,
            SysError::ResourceUnavailable => "resource temporarily unavailable"@,
            SysError::OutOfMemory => "cannot allocate memory"@,
            SysError::BadAddress => "bad address"@,
            SysError::AlreadyExists => "file exists"@,
            SysError::CrossDeviceLink => "cross-device link"@,
            SysError::NotDirectory => "not a directory"@,
            SysError::IsDirectory => "is a directory"@,
            SysError::InvalidArgument => "invalid argument"@,
            SysError::FileTableFull => "too many open files in system"@,
            SysError::TooManyFiles => "too many open files"@,
            SysError::NoSpace => "no space left on device"@,
            SysError::TooManyLinks => "too many links"@,
            SysError::BrokenPipe => "broken pipe"@,
            SysError::NameTooLong => "file name too long"@,
            SysError::NotImplemented => "function not implemented"@,
            SysError::NotEmpty => "directory not empty"@,
        }
    }

    /// Returns the error code for this error.
    pub fn as_code(self) -> (r: u16)
        ensures
            r == self.code(),
    {
        match self {
            SysError::NotPermitted => 1,
            SysError::NoEntry => 2,
            SysError::NoProcess => 3,
            SysError::Interrupted => 4,
            SysError::IoError => 5,
            SysError::InvalidExecutable => 8,
            SysError::BadDescriptor => 9,
            SysError::NoChildren => 10,
            SysError::ResourceUnavailable => 11,
            SysError::OutOfMemory => 12,
            SysError::BadAddress => 14,
            SysError::AlreadyExists => 17,
            SysError::CrossDeviceLink => 18,
            SysError::NotDirectory => 20,
            SysError::IsDirectory => 21,
            SysError::InvalidArgument => 22,
            SysError::FileTableFull => 23,
            SysError::TooManyFiles => 24,
            SysError::NoSpace => 28,
            SysError::TooManyLinks => 31,
            SysError::BrokenPipe => 32,
            SysError::NameTooLong => 36,
            SysError::NotImplemented => 38,
            SysError::NotEmpty => 39,
        }
    }

    /// Decodes an error code into a `SysError` variant.
    pub fn from_code(code: u16) -> (r: Self)
        ensures
            r == Self::of(code),
    {
        match code {
            1 => SysError::NotPermitted,
            2 => SysError::NoEntry,
            3 => SysError::NoProcess,
            4 => SysError::Interrupted,
            5 => SysError::IoError,
            8 => SysError::InvalidExecutable,
            9 => SysError::BadDescriptor,
            10 => SysError::NoChildren,
            11 => SysError::ResourceUnavailable,
            12 => SysError::OutOfMemory,
            14 => SysError::BadAddress,
            17 => SysError::AlreadyExists,
            18 => SysError::CrossDeviceLink,
            20 => SysError::NotDirectory,
            21 => SysError::IsDirectory,
            22 => SysError::InvalidArgument,
            23 => SysError::FileTableFull,
            24 => SysError::TooManyFiles,
            28 => SysError::NoSpace,
            31 => SysError::TooManyLinks,
            32 => SysError::BrokenPipe,
            36 => SysError::NameTooLong,
            38 => SysError::NotImplemented,
            39 => SysError::NotEmpty,
            _ => SysError::InvalidArgument,
        }
    }

    /// The message for the error.
    pub fn as_str(&self) -> (r: &'static str)
        ensures
            r@ == self.text(),
    {
        match self {
            SysError::NotPermitted => "operation not permitted",
            SysError::NoEntry => "no such file or directory",
            SysError::NoProcess => "no such process",
            SysError::Interrupted => "interrupted",
            SysError::IoError => "input/output error",
            SysError::InvalidExecutable => "exec format error",
            SysError::BadDescriptor => "bad file descriptor",
            SysError::NoChildren => "no child processes",
            SysError::ResourceUnavailable => "resource temporarily unavailable",
            SysError::OutOfMemory => "cannot allocate memory",
            SysError::BadAddress => "bad address",
            SysError::AlreadyExists => "file exists",
            SysError::CrossDeviceLink => "cross-device link",
            SysError::NotDirectory => "not a directory",
            SysError::IsDirectory => "is a directory",
            SysError::InvalidArgument => "invalid argument",
            SysError::FileTableFull => "too many open files in system",
            SysError::TooManyFiles => "too many open files",
            SysError::NoSpace => "no space left on device",
            SysError::TooManyLinks => "too many links",
            SysError::BrokenPipe => "broken pipe",
            SysError::NameTooLong => "file name too long",
            SysError::NotImplemented => "function not implemented",
            SysError::NotEmpty => "directory not empty",
        }
    }

    /// The error that user space sees for an error of the file system.
    pub open spec fn of_fs(e: FsError) -> SysError {
        match e {
            FsError::OutOfBlock | FsError::OutOfInode => SysError::NoSpace,
            FsError::OutOfFile | FsError::OutOfPipe => SysError::FileTableFull,
            FsError::OutOfRange => SysError::InvalidArgument,
            FsError::Read | FsError::Write => SysError::IoError,
            FsError::Create => SysError::NoSpace,
            FsError::Link => SysError::AlreadyExists,
            FsError::Resolve => SysError::NoEntry,
            FsError::Type => SysError::InvalidArgument,
            FsError::Copy => SysError::BadAddress,
        }
    }

    /// The value of the return register for a result: the number, or the negated error code.
    pub open spec fn encode(r: Result<u64, SysError>) -> u64 {
        match r {
            Ok(v) => v,
            Err(e) => (0x1_0000_0000_0000_0000 - e.code()) as u64,
        }
    }

    /// The result that user space makes of the return register: an error if the word, taken as a
    /// signed number, is negative.
    pub open spec fn decode(word: u64) -> Result<u64, SysError> {
        if word < 0x8000_0000_0000_0000 {
            Ok(word)
        } else {
            Err(Self::of(((0x1_0000_0000_0000_0000 - word) % 0x1_0000) as u16))
        }
    }
}

impl SysError {
    /// The value of the return register for a result.
    pub fn encode_result(r: Result<u64, SysError>) -> (word: u64)
        ensures
            word == Self::encode(r),
    {
        match r {
            Ok(v) => v,
            Err(e) => u64::MAX - (e.as_code() as u64 - 1),
        }
    }

    /// The result that user space makes of the return register.
    pub fn decode_result(word: u64) -> (r: Result<u64, SysError>)
        ensures
            r == Self::decode(word),
    {
        if word < 0x8000_0000_0000_0000 {
            Ok(word)
        } else {
            Err(Self::from_code(((u64::MAX - word + 1) % 0x1_0000) as u16))
        }
    }
}

impl From<FsError> for SysError {
    fn from(e: FsError) -> (r: Self) {
        match e {
            FsError::OutOfBlock | FsError::OutOfInode => SysError::NoSpace,
            FsError::OutOfFile | FsError::OutOfPipe => SysError::FileTableFull,
            FsError::OutOfRange => SysError::InvalidArgument,
            FsError::Read | FsError::Write => SysError::IoError,
            FsError::Create => SysError::NoSpace,
            FsError::Link => SysError::AlreadyExists,
            FsError::Resolve => SysError::NoEntry,
            FsError::Type => SysError::InvalidArgument,
            FsError::Copy => SysError::BadAddress,
        }
    }
}

impl FromSpecImpl<FsError> for SysError {
    open spec fn obeys_from_spec() -> bool {
        true
    }

    open spec fn from_spec(e: FsError) -> SysError {
        SysError::of_fs(e)
    }
}

/// Every error survives the way through its code.
pub proof fn law_error_code_roundtrip(e: SysError)
    ensures
        SysError::of(e.code()) == e,
        0 < e.code() < 4096,
{
}

/// User space sees the result that the kernel returned: every error, and every number that is not
/// negative as a signed word.
pub proof fn law_result_roundtrip(r: Result<u64, SysError>)
    requires
        r matches Ok(v) ==> v < 0x8000_0000_0000_0000,
    ensures
        SysError::decode(SysError::encode(r)) == r,
{
    if let Err(e) = r {
        law_error_code_roundtrip(e);
    }
}

/// System call numbers
#[derive(Debug, Clone, Copy, PartialEq, Eq, Structural)]
pub enum Syscall {
    Fork,
    Exit,
    Wait,
    Pipe,
    Read,
    Kill,
    Exec,
    Fstat,
    Chdir,
    Dup,
    Getpid,
    Sbrk,
    Sleep,
    Uptime,
    Open,
    Write,
    Mknod,
    Unlink,
    Link,
    Mkdir,
    Close,
    Poweroff,
    Ioctl,
    Getusedmem,
    Mprotect,
    Munprotect,
}

impl Syscall {
    /// The number of the call.
    pub open spec fn number(self) -> u64 {
        match self {
            Syscall::Fork => 1,
            Syscall::Exit => 2,
            Syscall::Wait => 3,
            Syscall::Pipe => 4,
            Syscall::Read => 5,
            Syscall::Kill => 6,
            Syscall::Exec => 7,
            Syscall::Fstat => 8,
            Syscall::Chdir => 9,
            Syscall::Dup => 10,
            Syscall::Getpid => 11,
            Syscall::Sbrk => 12,
            Syscall::Sleep => 13,
            Syscall::Uptime => 14,
            Syscall::Open => 15,
            Syscall::Write => 16,
            Syscall::Mknod => 17,
            Syscall::Unlink => 18,
            Syscall::Link => 19,
            Syscall::Mkdir => 20,
            Syscall::Close => 21,
            Syscall::Poweroff => 22,
            Syscall::Ioctl => 23,
            Syscall::Getusedmem => 24,
            Syscall::Mprotect => 25,
            Syscall::Munprotect => 26,
        }
    }

    /// The call with the given number.
    pub open spec fn of(n: u64) -> Result<Syscall, SysError> {
        if n == 1 {
            Ok(Syscall::Fork)
        } else if n == 2 {
            Ok(Syscall::Exit)
        } else if n == 3 {
            Ok(Syscall::Wait)
        } else if n == 4 {
            Ok(Syscall::Pipe)
        } else if n == 5 {
            Ok(Syscall::Read)
        } else if n == 6 {
            Ok(Syscall::Kill)
        } else if n == 7 {
            Ok(Syscall::Exec)
        } else if n == 8 {
            Ok(Syscall::Fstat)
        } else if n == 9 {
            Ok(Syscall::Chdir)
        } else if n == 10 {
            Ok(Syscall::Dup)
        } else if n == 11 {
            Ok(Syscall::Getpid)
        } else if n == 12 {
            Ok(Syscall::Sbrk)
        } else if n == 13 {
            Ok(Syscall::Sleep)
        } else if n == 14 {
            Ok(Syscall::Uptime)
        } else if n == 15 {
            Ok(Syscall::Open)
        } else if n == 16 {
            Ok(Syscall::Write)
        } else if n == 17 {
            Ok(Syscall::Mknod)
        } else if n == 18 {
            Ok(Syscall::Unlink)
        } else if n == 19 {
            Ok(Syscall::Link)
        } else if n == 20 {
            Ok(Syscall::Mkdir)
        } else if n == 21 {
            Ok(Syscall::Close)
        } else if n == 22 {
            Ok(Syscall::Poweroff)
        } else if n == 23 {
            Ok(Syscall::Ioctl)
        } else if n == 24 {
            Ok(Syscall::Getusedmem)
        } else if n == 25 {
            Ok(Syscall::Mprotect)
        } else if n == 26 {
            Ok(Syscall::Munprotect)
        } else {
            Err(SysError::NotImplemented)
        }
    }

    /// The number of the call.
    pub fn to_u64(self) -> (r: u64)
        ensures
            r == self.number(),
    {
        match self {
            Syscall::Fork => 1,
            Syscall::Exit => 2,
            Syscall::Wait => 3,
            Syscall::Pipe => 4,
            Syscall::Read => 5,
            Syscall::Kill => 6,
            Syscall::Exec => 7,
            Syscall::Fstat => 8,
            Syscall::Chdir => 9,
            Syscall::Dup => 10,
            Syscall::Getpid => 11,
            Syscall::Sbrk => 12,
            Syscall::Sleep => 13,
            Syscall::Uptime => 14,
            Syscall::Open => 15,
            Syscall::Write => 16,
            Syscall::Mknod => 17,
            Syscall::Unlink => 18,
            Syscall::Link => 19,
            Syscall::Mkdir => 20,
            Syscall::Close => 21,
            Syscall::Poweroff => 22,
            Syscall::Ioctl => 23,
            Syscall::Getusedmem => 24,
            Syscall::Mprotect => 25,
            Syscall::Munprotect => 26,
        }
    }

    /// The call with the given number.
    pub fn try_from(value: u64) -> (r: Result<Self, SysError>)
        ensures
            r == Self::of(value),
    {
        match value {
            1 => Ok(Syscall::Fork),
            2 => Ok(Syscall::Exit),
            3 => Ok(Syscall::Wait),
            4 => Ok(Syscall::Pipe),
            5 => Ok(Syscall::Read),
            6 => Ok(Syscall::Kill),
            7 => Ok(Syscall::Exec),
            8 => Ok(Syscall::Fstat),
            9 => Ok(Syscall::Chdir),
            10 => Ok(Syscall::Dup),
            11 => Ok(Syscall::Getpid),
            12 => Ok(Syscall::Sbrk),
            13 => Ok(Syscall::Sleep),
            14 => Ok(Syscall::Uptime),
            15 => Ok(Syscall::Open),
            16 => Ok(Syscall::Write),
            17 => Ok(Syscall::Mknod),
            18 => Ok(Syscall::Unlink),
            19 => Ok(Syscall::Link),
            20 => Ok(Syscall::Mkdir),
            21 => Ok(Syscall::Close),
            22 => Ok(Syscall::Poweroff),
            23 => Ok(Syscall::Ioctl),
            24 => Ok(Syscall::Getusedmem),
            25 => Ok(Syscall::Mprotect),
            26 => Ok(Syscall::Munprotect),
            _ => Err(SysError::NotImplemented),
        }
    }
}

/// Every call is found by its number.
pub proof fn law_call_number_roundtrip(c: Syscall)
    ensures
        Syscall::of(c.number()) == Ok::<Syscall, SysError>(c),
{
}

} // verus!
