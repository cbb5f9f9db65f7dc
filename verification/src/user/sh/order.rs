//! What running a command line comes to: which programs are executed, in which order, and with which
//! descriptors.
use vstd::prelude::*;
use crate::abi::SysError;
use crate::param::{MAXPATH, NOFILE};
use crate::user::sh::parse::{
    amp,
    bar,
    leading_words,
    lemma_leading_words,
    meaning,
    open_paren,
    semi,
    tokens,
    ParseState,
    Tree,
};
use crate::user::sh::run::{
    left_steps,
    name_of,
    parent_steps,
    plan,
    right_steps,
    Act,
    After,
    Job,
    Plan,
    Reply,
};

verus! {

/// What a descriptor of a process of the shell stands for.
pub enum Source {
    /// What the shell had it for
    Given(int),
    /// A file that was opened with the given mode
    File(Seq<u8>, u64),
    /// An end of the pipe with the given name
    Pipe(Seq<int>, bool),
}

/// What happens, in order, over all processes of a line.
pub enum Event {
    /// A program is executed: its path, its arguments and the descriptors that it has.
    Exec(Seq<u8>, Seq<Seq<u8>>, Seq<Option<Source>>),
    /// A process waits for a child.
    Wait,
}

/// The first descriptor from `i` on that is free.
pub open spec fn free_fd(fds: Seq<Option<Source>>, i: int) -> int
    decreases fds.len() - i,
{
    if 0 <= i < fds.len() && fds[i] is Some {
        free_fd(fds, i + 1)
    } else {
        i
    }
}

/// The descriptors with `source` at the first one that is free.
pub open spec fn with_fd(fds: Seq<Option<Source>>, source: Source) -> Seq<Option<Source>> {
    fds.update(free_fd(fds, 0), Some(source))
}

/// What happens when a process of the shell does what `job` says, and each process that it makes what
/// its own job says, where all calls do what they are for: `close`, `open`, `dup` and `pipe` change the
/// descriptors, the lowest free one being given out first, `fork` returns 0 in the child and `pid` in
/// the parent, and `exec` does not return. A child comes before what its parent does after the fork.
/// `None` if a call cannot succeed, a process fails, or they do not end within `fuel` calls.
pub open spec fn happens(
    job: Job,
    fds: Seq<Option<Source>>,
    name: Seq<int>,
    pid: u64,
    fuel: nat,
) -> Option<Seq<Event>>
    decreases fuel,
{
    let less = (fuel - 1) as nat;
    if fuel == 0 {
        None
    } else {
        match job.act() {
            Act::Close(fd) => if fd < fds.len() && fds[fd as int] is Some {
                happens(job.next(Ok((0, 0))), fds.update(fd as int, None), name, pid, less)
            } else {
                None
            },
            Act::Open(file, mode) => {
                let fd = free_fd(fds, 0);
                if fd < fds.len() {
                    happens(
                        job.next(Ok((fd as u64, 0))),
                        with_fd(fds, Source::File(file, mode)),
                        name,
                        pid,
                        less,
                    )
                } else {
                    None
                }
            },
            Act::Dup(fd) => if fd < fds.len() && fds[fd as int] is Some && free_fd(fds, 0)
                < fds.len() {
                happens(
                    job.next(Ok((free_fd(fds, 0) as u64, 0))),
                    with_fd(fds, fds[fd as int]->0),
                    name,
                    pid,
                    less,
                )
            } else {
                None
            },
            Act::MakePipe => {
                let one = with_fd(fds, Source::Pipe(name, false));
                let both = with_fd(one, Source::Pipe(name, true));
                let r = free_fd(fds, 0);
                let w = free_fd(one, 0);
                if r < fds.len() && w < fds.len() {
                    happens(job.next(Ok((r as u64, w as u64))), both, name, pid, less)
                } else {
                    None
                }
            },
            Act::Fork => match happens(job.next(Ok((0, 0))), fds, name.push(0), pid, less) {
                None => None,
                Some(child) => match happens(
                    job.next(Ok((pid, 0))),
                    fds,
                    name.push(1),
                    pid,
                    less,
                ) {
                    None => None,
                    Some(parent) => Some(child + parent),
                },
            },
            Act::Wait => match happens(job.next(Ok((pid, 0))), fds, name, pid, less) {
                None => None,
                Some(rest) => Some(seq![Event::Wait] + rest),
            },
            Act::Exec(path, argv) => Some(seq![Event::Exec(path, argv, fds)]),
            Act::Exit(_) => Some(seq![]),
            Act::Die(_, _) => None,
            Act::Panic(_) => None,
        }
    }
}

/// What a command means. A program gets the descriptors that it finds. A redirection puts a file in the
/// place of one of them. The sides of a pipe get its ends for output and input, and the shell waits for
/// both. Of a list the first command comes first, and is waited for. Nobody waits for a command in the
/// background.
pub open spec fn means(t: Tree, fds: Seq<Option<Source>>, name: Seq<int>) -> Seq<Event>
    decreases t,
{
    match t {
        Tree::Exec(argv) => seq![Event::Exec(seq![0x2fu8] + name_of(argv), argv, fds)],
        Tree::Redirect(cmd, file, mode, fd) => means(
            *cmd,
            fds.update(fd as int, Some(Source::File(file, mode))),
            name,
        ),
        Tree::Pipe(left, right) => means(
            *left,
            fds.update(1, Some(Source::Pipe(name, true))),
            name.push(0),
        ) + means(
            *right,
            fds.update(0, Some(Source::Pipe(name, false))),
            name.push(1).push(0),
        ) + seq![Event::Wait, Event::Wait],
        Tree::List(left, right) => means(*left, fds, name.push(0)) + seq![Event::Wait] + means(
            *right,
            fds,
            name.push(1),
        ),
        Tree::Background(cmd) => means(*cmd, fds, name.push(0)),
    }
}

/// The simple commands of a line, in the order in which they stand there.
pub open spec fn commands(t: Tree) -> Seq<Seq<Seq<u8>>>
    decreases t,
{
    match t {
        Tree::Exec(argv) => seq![argv],
        Tree::Redirect(cmd, _, _, _) => commands(*cmd),
        Tree::Pipe(left, right) => commands(*left) + commands(*right),
        Tree::List(left, right) => commands(*left) + commands(*right),
        Tree::Background(cmd) => commands(*cmd),
    }
}

/// The programs that are executed, with their arguments, in order.
pub open spec fn executions(events: Seq<Event>) -> Seq<Seq<Seq<u8>>>
    decreases events.len(),
{
    if events.len() == 0 {
        seq![]
    } else {
        executions(events.drop_last()) + match events.last() {
            Event::Exec(_, argv, _) => seq![argv],
            Event::Wait => seq![],
        }
    }
}

/// Standard input, output and error are open, and nothing else.
pub open spec fn standard(fds: Seq<Option<Source>>) -> bool {
    &&& fds.len() == NOFILE
    &&& forall|i: int| 0 <= i < NOFILE ==> (#[trigger] fds[i] is Some) == (i < 3)
}

/// Redirections are of standard input and output, and no name is too long.
pub open spec fn sensible(t: Tree) -> bool
    decreases t,
{
    match t {
        Tree::Exec(argv) => name_of(argv).len() < MAXPATH,
        Tree::Redirect(cmd, _, _, fd) => fd <= 1 && sensible(*cmd),
        Tree::Pipe(left, right) => sensible(*left) && sensible(*right),
        Tree::List(left, right) => sensible(*left) && sensible(*right),
        Tree::Background(cmd) => sensible(*cmd),
    }
}

/// A number of calls within which a command is run.
pub open spec fn calls(t: Tree) -> nat
    decreases t,
{
    match t {
        Tree::Exec(argv) => 1,
        Tree::Redirect(cmd, _, _, _) => calls(*cmd) + 2,
        Tree::Pipe(left, right) => calls(*left) + calls(*right) + 12,
        Tree::List(left, right) => calls(*left) + calls(*right) + 2,
        Tree::Background(cmd) => calls(*cmd) + 2,
    }
}

proof fn lemma_free(fds: Seq<Option<Source>>, i: int, j: int)
    requires
        0 <= i <= j < fds.len(),
        forall|k: int| i <= k < j ==> (#[trigger] fds[k]) is Some,
        fds[j] is None,
    ensures
        free_fd(fds, i) == j,
    decreases j - i,
{
    if i < j {
        assert(fds[i] is Some);
        lemma_free(fds, i + 1, j);
    }
}

/// Replacing the file of a standard descriptor.
proof fn lemma_standard(fds: Seq<Option<Source>>, fd: int, s: Source)
    requires
        standard(fds),
        0 <= fd < 3,
    ensures
        standard(fds.update(fd, Some(s))),
{
    assert forall|i: int| 0 <= i < NOFILE implies (#[trigger] fds.update(fd, Some(s))[i] is Some)
        == (i < 3) by {
        assert(fds[i] is Some == (i < 3));
    }
}

/// Running a line does what the line means: over all its processes the same programs are executed, in
/// the same order, with the same arguments and descriptors, and the same children are waited for.
pub proof fn law_line_is_run(t: Tree, fds: Seq<Option<Source>>, name: Seq<int>, pid: u64, fuel: nat)
    requires
        standard(fds),
        sensible(t),
        pid != 0,
        fuel >= calls(t),
    ensures
        happens(Job::Start(t), fds, name, pid, fuel) == Some(means(t, fds, name)),
    decreases t, 1int,
{
    let less = (fuel - 1) as nat;
    let job = Job::Start(t);
    match t {
        Tree::Exec(argv) => {},
        Tree::Redirect(cmd, file, mode, fd) => {
            let f = fd as int;
            let a = fds.update(f, None);
            assert(fds[f] is Some);
            assert forall|k: int| 0 <= k < f implies (#[trigger] a[k]) is Some by {
                assert(fds[k] is Some);
            }
            lemma_free(a, 0, f);
            let b = fds.update(f, Some(Source::File(file, mode)));
            assert(with_fd(a, Source::File(file, mode)) =~= b);
            lemma_standard(fds, f, Source::File(file, mode));
            law_line_is_run(*cmd, b, name, pid, (fuel - 2) as nat);
            let opening = Job::Opening(*cmd, file, mode);
            assert(happens(opening, a, name, pid, less) == happens(
                Job::Start(*cmd),
                b,
                name,
                pid,
                (fuel - 2) as nat,
            ));
        },
        Tree::Pipe(left, right) => {
            lemma_pipe_run(*left, *right, fds, name, pid, fuel);
        },
        Tree::List(left, right) => {
            law_line_is_run(*left, fds, name.push(0), pid, less);
            law_line_is_run(*right, fds, name.push(1), pid, (fuel - 2) as nat);
            let child = means(*left, fds, name.push(0));
            let after = means(*right, fds, name.push(1));
            assert(happens(Job::ListWait(*right), fds, name.push(1), pid, less) == Some(
                seq![Event::Wait] + after,
            ));
            assert(child + (seq![Event::Wait] + after) =~= child + seq![Event::Wait] + after);
        },
        Tree::Background(cmd) => {
            law_line_is_run(*cmd, fds, name.push(0), pid, less);
            let child = means(*cmd, fds, name.push(0));
            assert(happens(Job::End(Act::Exit(0)), fds, name.push(1), pid, less) == Some(
                Seq::<Event>::empty(),
            ));
            assert(child + Seq::<Event>::empty() =~= child);
        },
    }
}

/// The descriptors when a pipe was made.
pub open spec fn piped(fds: Seq<Option<Source>>, name: Seq<int>) -> Seq<Option<Source>> {
    fds.update(3, Some(Source::Pipe(name, false))).update(4, Some(Source::Pipe(name, true)))
}

proof fn lemma_pipe_run(
    left: Tree,
    right: Tree,
    fds: Seq<Option<Source>>,
    name: Seq<int>,
    pid: u64,
    fuel: nat,
)
    requires
        standard(fds),
        sensible(left),
        sensible(right),
        pid != 0,
        fuel >= calls(left) + calls(right) + 12,
    ensures
        ({
            let t = Tree::Pipe(Box::new(left), Box::new(right));
            happens(Job::Start(t), fds, name, pid, fuel) == Some(means(t, fds, name))
        }),
    decreases Tree::Pipe(Box::new(left), Box::new(right)), 0int,
{
    let t = Tree::Pipe(Box::new(left), Box::new(right));
    let both = piped(fds, name);
    let one = fds.update(3, Some(Source::Pipe(name, false)));
    assert forall|k: int| 0 <= k < 3 implies (#[trigger] fds[k]) is Some by {}
    assert(fds[3] is None && fds[4] is None);
    lemma_free(fds, 0, 3);
    assert forall|k: int| 0 <= k < 4 implies (#[trigger] one[k]) is Some by {
        assert(k < 3 ==> fds[k] is Some);
    }
    assert(one[4] == fds[4]);
    lemma_free(one, 0, 4);
    let f1 = (fuel - 1) as nat;
    let f2 = (fuel - 2) as nat;
    let f3 = (fuel - 3) as nat;
    assert(happens(Job::Start(t), fds, name, pid, fuel) == happens(
        Job::LeftFork(3, 4, left, right),
        both,
        name,
        pid,
        f1,
    ));
    lemma_left_run(left, fds, name, pid, f2);
    lemma_right_run(right, fds, name, pid, f3);
    lemma_parent_run(fds, name, name.push(1).push(1), pid, f3);
    let l = means(left, fds.update(1, Some(Source::Pipe(name, true))), name.push(0));
    let r = means(right, fds.update(0, Some(Source::Pipe(name, false))), name.push(1).push(0));
    let w = seq![Event::Wait, Event::Wait];
    assert(happens(Job::RightFork(3, 4, right), both, name.push(1), pid, f2) == Some(r + w));
    assert(l + (r + w) =~= l + r + w);
}

/// The left side of a pipe.
proof fn lemma_left_run(left: Tree, fds: Seq<Option<Source>>, name: Seq<int>, pid: u64, fuel: nat)
    requires
        standard(fds),
        sensible(left),
        pid != 0,
        fuel >= calls(left) + 4,
    ensures
        happens(
            Job::Steps(left_steps(3, 4), After::Run(left)),
            piped(fds, name),
            name.push(0),
            pid,
            fuel,
        ) == Some(means(left, fds.update(1, Some(Source::Pipe(name, true))), name.push(0))),
    decreases left, 2int,
{
    let steps = left_steps(3, 4);
    let run = After::Run(left);
    let out = Source::Pipe(name, true);
    let a = piped(fds, name);
    let b = a.update(3, None);
    let c = b.update(1, None);
    let d = c.update(1, Some(out));
    let e = d.update(4, None);
    let path = name.push(0);
    assert(fds[0] is Some && fds[1] is Some && fds[3] is None && fds[4] is None);
    assert(free_fd(c, 0) == 1) by {
        assert forall|k: int| 0 <= k < 1 implies (#[trigger] c[k]) is Some by {}
        lemma_free(c, 0, 1);
    }
    assert(e =~= fds.update(1, Some(out)));
    lemma_standard(fds, 1, out);
    law_line_is_run(left, e, path, pid, (fuel - 4) as nat);
    let j1 = Job::Steps(steps.skip(1), run);
    let j2 = Job::Steps(steps.skip(1).skip(1), run);
    let j3 = Job::Steps(steps.skip(1).skip(1).skip(1), run);
    assert(happens(j3, d, path, pid, (fuel - 3) as nat) == happens(
        Job::Start(left),
        e,
        path,
        pid,
        (fuel - 4) as nat,
    ));
    assert(happens(j2, c, path, pid, (fuel - 2) as nat) == happens(
        j3,
        d,
        path,
        pid,
        (fuel - 3) as nat,
    ));
    assert(happens(j1, b, path, pid, (fuel - 1) as nat) == happens(
        j2,
        c,
        path,
        pid,
        (fuel - 2) as nat,
    ));
}

/// The right side of a pipe.
proof fn lemma_right_run(right: Tree, fds: Seq<Option<Source>>, name: Seq<int>, pid: u64, fuel: nat)
    requires
        standard(fds),
        sensible(right),
        pid != 0,
        fuel >= calls(right) + 4,
    ensures
        happens(
            Job::Steps(right_steps(3, 4), After::Run(right)),
            piped(fds, name),
            name.push(1).push(0),
            pid,
            fuel,
        ) == Some(
            means(
                right,
                fds.update(0, Some(Source::Pipe(name, false))),
                name.push(1).push(0),
            ),
        ),
    decreases right, 2int,
{
    let steps = right_steps(3, 4);
    let run = After::Run(right);
    let input = Source::Pipe(name, false);
    let a = piped(fds, name);
    let b = a.update(4, None);
    let c = b.update(0, None);
    let d = c.update(0, Some(input));
    let e = d.update(3, None);
    let path = name.push(1).push(0);
    assert(fds[0] is Some && fds[1] is Some && fds[3] is None && fds[4] is None);
    assert(free_fd(c, 0) == 0);
    assert(e =~= fds.update(0, Some(input)));
    lemma_standard(fds, 0, input);
    law_line_is_run(right, e, path, pid, (fuel - 4) as nat);
    let j1 = Job::Steps(steps.skip(1), run);
    let j2 = Job::Steps(steps.skip(1).skip(1), run);
    let j3 = Job::Steps(steps.skip(1).skip(1).skip(1), run);
    assert(happens(j3, d, path, pid, (fuel - 3) as nat) == happens(
        Job::Start(right),
        e,
        path,
        pid,
        (fuel - 4) as nat,
    ));
    assert(happens(j2, c, path, pid, (fuel - 2) as nat) == happens(
        j3,
        d,
        path,
        pid,
        (fuel - 3) as nat,
    ));
    assert(happens(j1, b, path, pid, (fuel - 1) as nat) == happens(
        j2,
        c,
        path,
        pid,
        (fuel - 2) as nat,
    ));
}

/// The shell itself after a pipe.
proof fn lemma_parent_run(
    fds: Seq<Option<Source>>,
    name: Seq<int>,
    path: Seq<int>,
    pid: u64,
    fuel: nat,
)
    requires
        standard(fds),
        fuel >= 5,
    ensures
        happens(
            Job::Steps(parent_steps(3, 4), After::Exit(0)),
            piped(fds, name),
            path,
            pid,
            fuel,
        ) == Some(seq![Event::Wait, Event::Wait]),
{
    let steps = parent_steps(3, 4);
    let end = After::Exit(0);
    let a = piped(fds, name);
    let b = a.update(3, None);
    let c = b.update(4, None);
    let j1 = Job::Steps(steps.skip(1), end);
    let j2 = Job::Steps(steps.skip(1).skip(1), end);
    let j3 = Job::Steps(steps.skip(1).skip(1).skip(1), end);
    let none = Seq::<Event>::empty();
    assert(happens(Job::End(Act::Exit(0)), c, path, pid, (fuel - 4) as nat) == Some(none));
    assert(happens(j3, c, path, pid, (fuel - 3) as nat) == Some(seq![Event::Wait] + none));
    assert(happens(j2, c, path, pid, (fuel - 2) as nat) == Some(
        seq![Event::Wait] + (seq![Event::Wait] + none),
    ));
    assert(seq![Event::Wait] + (seq![Event::Wait] + none) =~= seq![Event::Wait, Event::Wait]);
    assert(happens(j1, b, path, pid, (fuel - 1) as nat) == happens(
        j2,
        c,
        path,
        pid,
        (fuel - 2) as nat,
    ));
}

proof fn lemma_executions(a: Seq<Event>, b: Seq<Event>)
    ensures
        executions(a + b) == executions(a) + executions(b),
    decreases b.len(),
{
    if b.len() == 0 {
        assert(a + b =~= a);
        assert(executions(a) + executions(b) =~= executions(a));
    } else {
        lemma_executions(a, b.drop_last());
        assert((a + b).drop_last() =~= a + b.drop_last());
        assert((a + b).last() == b.last());
        assert(executions(a + b) =~= executions(a) + executions(b));
    }
}

proof fn lemma_commands(t: Tree, fds: Seq<Option<Source>>, name: Seq<int>)
    ensures
        executions(means(t, fds, name)) == commands(t),
    decreases t,
{
    let wait = seq![Event::Wait];
    assert(wait.drop_last() =~= Seq::<Event>::empty());
    assert(executions(Seq::<Event>::empty()) =~= Seq::<Seq<Seq<u8>>>::empty());
    assert(wait.last() == Event::Wait);
    assert(executions(wait) =~= Seq::<Seq<Seq<u8>>>::empty());
    match t {
        Tree::Exec(argv) => {
            let e = Event::Exec(seq![0x2fu8] + name_of(argv), argv, fds);
            assert(seq![e].drop_last() =~= Seq::<Event>::empty());
            assert(executions(seq![e]) =~= seq![argv]);
        },
        Tree::Redirect(cmd, file, mode, fd) => {
            lemma_commands(*cmd, fds.update(fd as int, Some(Source::File(file, mode))), name);
        },
        Tree::Pipe(left, right) => {
            let l = fds.update(1, Some(Source::Pipe(name, true)));
            let r = fds.update(0, Some(Source::Pipe(name, false)));
            lemma_commands(*left, l, name.push(0));
            lemma_commands(*right, r, name.push(1).push(0));
            let a = means(*left, l, name.push(0));
            let b = means(*right, r, name.push(1).push(0));
            lemma_executions(a, b);
            let w = seq![Event::Wait, Event::Wait];
            assert(w =~= wait + wait);
            lemma_executions(wait, wait);
            lemma_executions(a + b, w);
            assert(executions(means(t, fds, name)) =~= commands(t));
        },
        Tree::List(left, right) => {
            lemma_commands(*left, fds, name.push(0));
            lemma_commands(*right, fds, name.push(1));
            let a = means(*left, fds, name.push(0));
            let b = means(*right, fds, name.push(1));
            lemma_executions(a, wait);
            lemma_executions(a + wait, b);
            assert(executions(means(t, fds, name)) =~= commands(t));
        },
        Tree::Background(cmd) => {
            lemma_commands(*cmd, fds, name.push(0));
        },
    }
}

/// Every simple command of a line is executed exactly once, in the order of the line, with the
/// arguments that it has there.
pub proof fn law_each_command_once(t: Tree, fds: Seq<Option<Source>>, pid: u64, fuel: nat)
    requires
        standard(fds),
        sensible(t),
        pid != 0,
        fuel >= calls(t),
    ensures
        happens(Job::Start(t), fds, seq![], pid, fuel) is Some,
        executions(happens(Job::Start(t), fds, seq![], pid, fuel)->0) == commands(t),
{
    law_line_is_run(t, fds, seq![], pid, fuel);
    lemma_commands(t, fds, seq![]);
}

/// Of a list the process that the fork makes goes on with exactly the first command; its parent waits
/// for it, and then, whatever came of it, goes on with exactly the second.
pub proof fn law_list(left: Tree, right: Tree, pid: u64, x: u64, reply: Reply)
    requires
        pid != 0,
    ensures
        ({
            let job = Job::Start(Tree::List(Box::new(left), Box::new(right)));
            &&& job.act() == Act::Fork
            &&& job.next(Ok((0, x))) == Job::Start(left)
            &&& job.next(Ok((pid, x))).act() == Act::Wait
            &&& job.next(Ok((pid, x))).next(reply) == Job::Start(right)
        }),
{
}

/// A command in the background runs in a process of its own, and nobody waits for it.
pub proof fn law_background(cmd: Tree, pid: u64, x: u64)
    requires
        pid != 0,
    ensures
        ({
            let job = Job::Start(Tree::Background(Box::new(cmd)));
            &&& job.act() == Act::Fork
            &&& job.next(Ok((0, x))) == Job::Start(cmd)
            &&& job.next(Ok((pid, x))).act() == Act::Exit(0)
        }),
{
}

/// Where a call fails a process goes no further: it says so, or panics, and executes nothing. The one
/// exception is waiting for the first command of a list.
pub proof fn law_failure_ends(job: Job, e: SysError)
    requires
        job.wf(),
        !(job is ListWait),
        !(job is End),
    ensures
        ({
            let after = job.next(Err(e));
            &&& after is End
            &&& after.act() is Die || after.act() is Panic
            &&& forall|reply: Reply| #[trigger] after.next(reply) == after
        }),
{
}

/// A file that cannot be opened is named, and so is a program that cannot be executed.
pub proof fn law_failure_is_named(cmd: Tree, file: Seq<u8>, mode: u64, argv: Seq<Seq<u8>>, e: SysError)
    requires
        name_of(argv).len() < MAXPATH,
    ensures
        Job::Opening(cmd, file, mode).next(Err(e)).act() == Act::Die("sh: cannot open "@, file),
        Job::Start(Tree::Exec(argv)).next(Err(e)).act() == Act::Die(
            "sh: exec failed "@,
            name_of(argv),
        ),
{
}

/// Redirections are of standard input and output.
pub open spec fn redirects_standard(t: Tree) -> bool
    decreases t,
{
    match t {
        Tree::Exec(argv) => true,
        Tree::Redirect(cmd, _, _, fd) => fd <= 1 && redirects_standard(*cmd),
        Tree::Pipe(left, right) => redirects_standard(*left) && redirects_standard(*right),
        Tree::List(left, right) => redirects_standard(*left) && redirects_standard(*right),
        Tree::Background(cmd) => redirects_standard(*cmd),
    }
}

/// Whatever line is read, its redirections are of standard input and output.
pub proof fn law_redirects_standard(line: Seq<u8>)
    ensures
        meaning(line) matches Ok(Some(t)) ==> redirects_standard(t),
{
    lemma_line(ParseState { rest: tokens(line, 0), nodes: 0, args: 0 });
}

proof fn lemma_redirects(s: ParseState, cmd: Tree)
    requires
        redirects_standard(cmd),
    ensures
        s.redirects(cmd) matches Ok((Some(t), _)) ==> redirects_standard(t),
    decreases s.rest.len(),
{
    if let Some((mode, fd)) = s.redirection() {
        if s.rest.len() >= 2 {
            if let Ok(n) = s.skip(2).node() {
                lemma_redirects(n, Tree::Redirect(Box::new(cmd), s.rest[1], mode, fd));
            }
        }
    }
}

proof fn lemma_backgrounds(s: ParseState, cmd: Tree)
    requires
        redirects_standard(cmd),
    ensures
        s.backgrounds(cmd) matches Ok((t, _)) ==> redirects_standard(t),
    decreases s.rest.len(),
{
    if s.at(amp()) {
        if let Ok(n) = s.skip(1).node() {
            lemma_backgrounds(n, Tree::Background(Box::new(cmd)));
        }
    }
}

proof fn lemma_exec(s: ParseState)
    ensures
        s.exec() matches Ok((Some(t), _)) ==> redirects_standard(t),
    decreases s.rest.len(), 0int,
{
    if s.at(open_paren()) {
        lemma_line(s.skip(1));
        if let Ok((Some(cmd), n)) = s.skip(1).line() {
            lemma_redirects(n.skip(1), cmd);
        }
    } else {
        let n = leading_words(s.rest);
        lemma_leading_words(s.rest);
        lemma_redirects(
            ParseState { args: s.args + n, ..s.skip(n) },
            Tree::Exec(s.rest.take(n)),
        );
    }
}

proof fn lemma_pipe(s: ParseState)
    ensures
        s.pipe() matches Ok((Some(t), _)) ==> redirects_standard(t),
    decreases s.rest.len(), 1int,
{
    lemma_exec(s);
    if let Ok((Some(left), n)) = s.exec() {
        if n.at(bar()) && n.rest.len() <= s.rest.len() {
            lemma_pipe(n.skip(1));
        }
    }
}

proof fn lemma_line(s: ParseState)
    ensures
        s.line() matches Ok((Some(t), _)) ==> redirects_standard(t),
    decreases s.rest.len(), 2int,
{
    lemma_pipe(s);
    if let Ok((Some(cmd), n)) = s.pipe() {
        lemma_backgrounds(n, cmd);
        if let Ok((left, n)) = n.backgrounds(cmd) {
            if n.at(semi()) && n.rest.len() <= s.rest.len() {
                lemma_line(n.skip(1));
            }
        }
    }
}

/// The shell itself changes its directory and exits; all other lines that are not empty it runs in a
/// process of its own.
pub proof fn law_plan(line: Seq<u8>)
    ensures
        ({
            let t = tokens(line, 0);
            let cd = seq![0x63u8, 0x64];
            let leave = seq![0x65u8, 0x78, 0x69, 0x74];
            &&& plan(line) is Nothing <==> t.len() == 0
            &&& plan(line) is Exit <==> t.len() > 0 && t[0] == leave
            &&& plan(line) is ChangeDir <==> t.len() > 0 && t[0] == cd
            &&& t.len() > 1 && t[0] == cd ==> plan(line) == Plan::ChangeDir(t[1])
            &&& t.len() == 1 && t[0] == cd ==> plan(line) == Plan::ChangeDir(seq![0x2fu8])
        }),
{
    let cd = seq![0x63u8, 0x64];
    let leave = seq![0x65u8, 0x78, 0x69, 0x74];
    assert(cd.len() != leave.len());
}

} // verus!
