//! The system call that replaces the program of a process.
use vstd::prelude::*;
use crate::abi::SysError;
use crate::exec::run::{can_exec, exec, executed};
use crate::exec::stack::views;
use crate::exec::ExecError;
use crate::fs::path::Path;
use crate::fs::table::{Fs, FsState};
use crate::kalloc::{Kmem, KmemState};
use crate::le::{get_u64, u64_at};
use crate::param::{MAXARG, MAXPATH};
use crate::proc::{copy_from_user, ProcData};
use crate::riscv::PGSIZE;
use crate::syscall::{fetch_string, SyscallArgs};
use crate::vm::uvm::kmem_ok;
use crate::vm::{UserMem, VA};

verus! {

impl UserMem {
    /// Fetching the arguments whose addresses are in the array at `uargv`, from the `i`th on,
    /// after `acc`: up to an address of zero. `None` where an address overflows or is reserved.
    pub open spec fn fetch_args(self, size: int, uargv: int, i: int, acc: Seq<Seq<u8>>) -> Option<
        (UserMem, Result<Seq<Seq<u8>>, SysError>),
    >
        decreases MAXARG - i,
    {
        if i >= MAXARG {
            Some((self, Ok(acc)))
        } else if uargv + i * 8 > u64::MAX {
            None
        } else {
            match self.copy_from(size, uargv + i * 8, 8, seq![]) {
                None => None,
                Some((m, Err(_))) => Some((m, Err(SysError::BadAddress))),
                Some((m, Ok(bytes))) => if u64_at(bytes, 0) == 0 {
                    Some((m, Ok(acc)))
                } else {
                    match m.fetch(size, u64_at(bytes, 0) as int, PGSIZE as int, 0, seq![]) {
                        None => None,
                        Some((m, Err(e))) => Some((m, Err(e))),
                        Some((m, Ok(arg))) => m.fetch_args(size, uargv, i + 1, acc.push(arg)),
                    }
                },
            }
        }
    }

    /// Fetching the path and the arguments of the program to execute.
    pub open spec fn fetch_program(self, size: int, args: SyscallArgs) -> Option<
        (UserMem, Result<(Seq<u8>, Seq<Seq<u8>>), SysError>),
    > {
        match self.fetch(size, args.arg(0) as int, MAXPATH as int, 0, seq![]) {
            None => None,
            Some((m, Err(e))) => Some((m, Err(e))),
            Some((m, Ok(path))) => match m.fetch_args(size, args.arg(1) as int, 0, seq![]) {
                None => None,
                Some((m, Err(e))) => Some((m, Err(e))),
                Some((m, Ok(argv))) => Some((m, Ok((path, argv)))),
            },
        }
    }
}

/// Fetches the arguments of a program.
#[verifier::rlimit(30)]
fn fetch_args(data: &mut ProcData, kmem: &mut Kmem, uargv: VA) -> (r: Result<
    Vec<Vec<u8>>,
    SysError,
>)
    requires
        old(kmem).wf(),
        old(data).ready(old(kmem)@),
        old(data).mem(old(kmem)@).fetch_args(
            old(data).size as int,
            uargv.0 as int,
            0,
            seq![],
        ) is Some,
    ensures
        final(kmem).wf(),
        old(data).touched(old(kmem)@, *final(data), final(kmem)@),
        old(data).settled(old(kmem)@) ==> final(data).settled(final(kmem)@),
        ({
            let (m, argv) = old(data).mem(old(kmem)@).fetch_args(
                old(data).size as int,
                uargv.0 as int,
                0,
                seq![],
            )->0;
            &&& final(data).mem(final(kmem)@) == m
            &&& match argv {
                Ok(argv) => r is Ok && views(r->Ok_0@) == argv,
                Err(e) => r is Err && r->Err_0 == e,
            }
        }),
{
    let ghost d0 = *data;
    let ghost k0 = kmem@;
    let ghost want = data.mem(k0).fetch_args(data.size as int, uargv.0 as int, 0, seq![]);
    let mut argv: Vec<Vec<u8>> = Vec::new();
    proof {
        kmem.lemma_wf();
        data.lemma_touched_refl(k0);
        assert(views(argv@) =~= seq![]);
    }
    let mut i: usize = 0;
    while i < MAXARG
        invariant
            d0 == *old(data),
            k0 == old(kmem)@,
            kmem_ok(k0),
            d0.ready(k0),
            kmem.wf(),
            data.ready(kmem@),
            d0.touched(k0, *data, kmem@),
            d0.settled(k0) ==> data.settled(kmem@),
            i <= MAXARG,
            want is Some,
            want == d0.mem(k0).fetch_args(d0.size as int, uargv.0 as int, 0, seq![]),
            want == data.mem(kmem@).fetch_args(
                d0.size as int,
                uargv.0 as int,
                i as int,
                views(argv@),
            ),
        decreases MAXARG - i,
    {
        let ghost d1 = *data;
        let ghost k1 = kmem@;
        proof {
            kmem.lemma_wf();
        }
        // fetch pointer argv[i] from user space
        let mut bytes: Vec<u8> = Vec::new();
        assert(bytes@ =~= seq![]);
        let copied = copy_from_user(data, kmem, VA(uargv.0 + i as u64 * 8), &mut bytes, 8);
        let ghost d2 = *data;
        let ghost k2 = kmem@;
        proof {
            kmem.lemma_wf();
            d0.lemma_touched_trans(k0, d1, k1, d2, k2);
        }
        if copied.is_err() {
            return Err(SysError::BadAddress);
        }
        let uarg = get_u64(&bytes, 0);
        if uarg == 0 {
            return Ok(argv);  // NULL terminator
        }
        // fetch string from user space
        let fetched = fetch_string(data, kmem, VA(uarg), PGSIZE as usize);
        proof {
            d0.lemma_touched_trans(k0, d2, k2, *data, kmem@);
        }
        match fetched {
            Ok(arg) => {
                let ghost before = argv@;
                argv.push(arg);
                assert(views(argv@) =~= views(before).push(arg@));
            },
            Err(e) => {
                return Err(e);
            },
        }
        i += 1;
    }
    Ok(argv)
}

/// A program can be executed, or it can be said why not.
pub open spec fn can_call_exec(
    s0: FsState,
    d0: ProcData,
    k0: KmemState,
    args: SyscallArgs,
    trampoline: u64,
) -> bool {
    &&& d0.settled(k0)
    &&& d0.mem(k0).fetch_program(d0.size as int, args) matches Some((m, fetched))
    &&& (fetched matches Ok((path, argv)) ==> forall|d: ProcData, k: KmemState|
        d0.touched(k0, d, k) && d.mem(k) == m && d.settled(k) ==> #[trigger] can_exec(
            s0,
            d,
            k,
            path,
            argv,
            trampoline,
        ))
}

/// What the call does: the path and the arguments are fetched, and then the program is executed.
pub open spec fn called_exec(
    s0: FsState,
    d0: ProcData,
    k0: KmemState,
    args: SyscallArgs,
    trampoline: u64,
    s1: FsState,
    d1: ProcData,
    k1: KmemState,
    r: Result<u64, SysError>,
) -> bool {
    let (m, fetched) = d0.mem(k0).fetch_program(d0.size as int, args)->0;
    match fetched {
        Err(e) => {
            &&& r == Err::<u64, SysError>(e)
            &&& d0.touched(k0, d1, k1)
            &&& d1.settled(k1)
            &&& d1.mem(k1) == m
            &&& s1 == s0
        },
        Ok((path, argv)) => exists|d: ProcData, k: KmemState, e: Result<u64, ExecError>|
            {
                &&& d0.touched(k0, d, k)
                &&& d.settled(k)
                &&& kmem_ok(k)
                &&& d.mem(k) == m
                &&& #[trigger] executed(s0, d, k, path, argv, trampoline, s1, d1, k1, e)
                &&& r == match e {
                    Ok(argc) => Ok::<u64, SysError>(argc),
                    Err(_) => Err(SysError::InvalidExecutable),
                }
            },
    }
}

/// The process is in order after the call.
pub(crate) proof fn lemma_exec_settled(
    s0: FsState,
    d0: ProcData,
    k0: KmemState,
    args: SyscallArgs,
    trampoline: u64,
    s1: FsState,
    d1: ProcData,
    k1: KmemState,
    r: Result<u64, SysError>,
)
    requires
        called_exec(s0, d0, k0, args, trampoline, s1, d1, k1, r),
    ensures
        d1.settled(k1),
{
    reveal(executed);
}

pub fn sys_exec(args: &SyscallArgs, data: &mut ProcData, kmem: &mut Kmem, fs: &mut Fs, trampoline: u64) -> (r: Result<
    u64,
    SysError,
>)
    requires
        old(kmem).wf(),
        old(fs).wf(),
        can_call_exec(old(fs)@, *old(data), old(kmem)@, *args, trampoline),
    ensures
        final(kmem).wf(),
        final(fs).wf(),
        called_exec(
            old(fs)@,
            *old(data),
            old(kmem)@,
            *args,
            trampoline,
            final(fs)@,
            *final(data),
            final(kmem)@,
            r,
        ),
{
    let ghost d0 = *data;
    let ghost k0 = kmem@;
    proof {
        kmem.lemma_wf();
    }
    let uargv = args.get_addr(1);
    let path = match fetch_string(data, kmem, args.get_addr(0), MAXPATH) {
        Ok(path) => path,
        Err(e) => {
            return Err(e);
        },
    };
    let ghost d1 = *data;
    let ghost k1 = kmem@;
    proof {
        kmem.lemma_wf();
    }
    let fetched = fetch_args(data, kmem, uargv);
    proof {
        d0.lemma_touched_trans(k0, d1, k1, *data, kmem@);
    }
    let argv = match fetched {
        Ok(argv) => argv,
        Err(e) => {
            return Err(e);
        },
    };
    let ghost d2 = *data;
    let ghost k2 = kmem@;
    let path = Path::new(&path);
    proof {
        kmem.lemma_wf();
        let (m, f) = d0.mem(k0).fetch_program(d0.size as int, *args)->0;
        assert(f is Ok);
        assert(f->Ok_0.0 == path.0@);
        assert(f->Ok_0.1 == views(argv@));
        assert(d0.touched(k0, d2, k2));
        assert(d2.mem(k2) == m);
        assert(d2.settled(k2));
    }
    assert(can_exec(fs@, d2, k2, path.0@, views(argv@), trampoline));
    let ran = exec(data, kmem, fs, &path, &argv, trampoline);
    assert(executed(
        old(fs)@,
        d2,
        k2,
        path.0@,
        views(argv@),
        trampoline,
        fs@,
        *data,
        kmem@,
        ran,
    ));
    match ran {
        Ok(argc) => Ok(argc),
        Err(_) => Err(SysError::InvalidExecutable),
    }
}

} // verus!
