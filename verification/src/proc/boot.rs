//! The first process.
use vstd::prelude::*;
use crate::exec::run::{can_exec, exec, executed};
use crate::exec::stack::views;
use crate::exec::ExecError;
use crate::fs::path::Path;
use crate::fs::table::{can_init, init, mounted, Fs};
use crate::fs::{Inode, ROOTINO};
use crate::kalloc::{Kmem, KmemState};
use crate::param::{NPROC, ROOTDEV};
use crate::proc::{Code, ProcData, ProcInner, ProcState, ProcTable, TrapFrame, TrapPage};

verus! {

/// Sets up first user process. Returns its index.
pub fn user_init(procs: &mut ProcTable, kmem: &mut Kmem, fs: &mut Fs, code: Code) -> (r: usize)
    requires
        old(procs).wf(),
        old(procs).tidy(),
        old(procs).can_make(code),
        old(kmem).wf(),
        old(kmem)@.free.len() >= 4,
        old(procs).first_unused(0) < NPROC,
        old(fs).tables_ok(),
        old(fs)@.get(ROOTDEV, ROOTINO) matches Some((_, Ok(_))),
    ensures
        final(procs).wf(),
        final(kmem).wf(),
        forall|q: u64| #[trigger]
            old(kmem)@.frames.contains_key(q) ==> final(kmem)@.frames.contains_key(q)
                && final(kmem)@.frames[q] == old(kmem)@.frames[q],
        forall|q: u64| #[trigger]
            (final(procs).table@[r as int].data.pagetable->0).owns(final(kmem)@, q) ==> old(
                kmem)@.free.contains(q),
        final(fs).tables_ok(),
        final(fs).store == old(fs).store,
        final(fs).sb == old(fs).sb,
        r == old(procs).first_unused(0),
        final(procs).init == r,
        final(procs).parents == old(procs).parents,
        final(procs).pid_count == old(procs).pid_count + 1,
        forall|j: int| 0 <= j < NPROC && j != r ==> #[trigger] final(procs).table@[j] == old(
            procs).table@[j],
        ({
            let (s, root) = old(fs)@.get(ROOTDEV, ROOTINO)->0;
            let p = final(procs).table@[r as int];
            &&& final(fs)@ == s
            &&& p.data.cwd == root->Ok_0
            &&& p.inner.state == ProcState::Runnable
            // but for these it is as a process is made
            &&& exists|made: ProcTable| #[trigger]
                old(procs).made(
                    made,
                    r as int,
                    final(kmem)@,
                    code,
                    (old(kmem)@.free.len() - 4) as nat,
                ) && p.inner == (ProcInner {
                    state: ProcState::Runnable,
                    ..made.table@[r as int].inner
                }) && p.data == (ProcData { cwd: root->Ok_0, ..made.table@[r as int].data })
        }),
{
    let i = match procs.allocate(kmem, code) {
        Ok(i) => i,
        Err(_) => {
            assert(false);
            0
        },
    };
    let ghost made = *procs;
    procs.init = i;
    let root = Inode::get(fs, ROOTDEV, ROOTINO);
    procs.table[i].data.cwd = root.unwrap();
    procs.table[i].inner.state = ProcState::Runnable;
    i
}

/// What the first process does when it first runs: the file system is set up, and the program
/// `/init` is run, which gets its own name as argument.
pub open spec fn can_first_run(fs: Fs, d0: ProcData, k0: KmemState, trampoline: u64) -> bool {
    &&& can_init(fs, ROOTDEV)
    &&& mounted(fs@, ROOTDEV).reclaim_from(
        ROOTDEV,
        1,
        mounted(fs@, ROOTDEV).sb.ninodes as int,
    ) matches Some(s)
    &&& can_exec(s, d0, k0, init_path(), seq![init_name()], trampoline)
}

/// `/init`
pub open spec fn init_path() -> Seq<u8> {
    seq![0x2f, 0x69, 0x6e, 0x69, 0x74]
}

/// `init`
pub open spec fn init_name() -> Seq<u8> {
    seq![0x69, 0x6e, 0x69, 0x74]
}

/// With `a0` in the registers that are restored on the way to user space.
pub open spec fn with_a0(d: ProcData, a0: u64) -> ProcData {
    ProcData {
        trapframe: Some(
            TrapPage {
                frame: TrapFrame { a0, ..d.trapframe->0.frame },
                ..d.trapframe->0
            },
        ),
        ..d
    }
}

/// A process runs for the first time. For the `first` of all, file system initialization must be
/// run in the context of a regular process, and then its program is run. An error means that the
/// system cannot start.
pub fn fork_ret(
    first: bool,
    data: &mut ProcData,
    kmem: &mut Kmem,
    fs: &mut Fs,
    trampoline: u64,
) -> (r: Result<(), ExecError>)
    requires
        old(kmem).wf(),
        first ==> can_first_run(*old(fs), *old(data), old(kmem)@, trampoline),
    ensures
        final(kmem).wf(),
        !first ==> r is Ok && *final(data) == *old(data) && *final(kmem) == *old(kmem) && *final(fs)
            == *old(fs),
        first ==> final(fs).wf() && {
            let s = mounted(old(fs)@, ROOTDEV).reclaim_from(
                ROOTDEV,
                1,
                mounted(old(fs)@, ROOTDEV).sb.ninodes as int,
            )->0;
            exists|d: ProcData, ran: Result<u64, ExecError>| #[trigger]
                executed(
                    s,
                    *old(data),
                    old(kmem)@,
                    init_path(),
                    seq![init_name()],
                    trampoline,
                    final(fs)@,
                    d,
                    final(kmem)@,
                    ran,
                ) && match ran {
                    Ok(argc) => r is Ok && *final(data) == with_a0(d, argc),
                    Err(e) => r == Err::<(), ExecError>(e) && *final(data) == d,
                }
        },
{
    if !first {
        return Ok(());
    }
    init(fs, ROOTDEV);
    let path = [0x2fu8, 0x69, 0x6e, 0x69, 0x74];
    let mut name: Vec<u8> = Vec::new();
    name.push(0x69);
    name.push(0x6e);
    name.push(0x69);
    name.push(0x74);
    let mut argv: Vec<Vec<u8>> = Vec::new();
    assert(name@ =~= init_name());
    assert(path@ =~= init_path());
    argv.push(name);
    assert(views(argv@) =~= seq![init_name()]);
    let path = Path::new(path.as_slice());
    let ghost s = fs@;
    let ghost d0 = *data;
    let ghost k0 = kmem@;
    let ran = exec(data, kmem, fs, &path, &argv, trampoline);
    assert(executed(
        s,
        d0,
        k0,
        init_path(),
        seq![init_name()],
        trampoline,
        fs@,
        *data,
        kmem@,
        ran,
    ));
    match ran {
        Ok(argc) => {
            proof {
                reveal(can_exec);
                reveal(executed);
            }
            data.trapframe_mut().a0 = argc;
            Ok(())
        },
        Err(e) => Err(e),
    }
}

} // verus!
