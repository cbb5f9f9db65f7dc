//! How a command is run: what a process of the shell asks for next, and what comes of the reply.
use vstd::prelude::*;
use crate::abi::SysError;
use crate::file::File;
use crate::param::{MAXPATH, NOFILE};
use crate::sysfile::{fd_given, first_fd};
use crate::user::calls::Fd;
use crate::user::sh::parse::{
    amp,
    bar,
    leading_words,
    lemma_leading_words,
    meaning,
    open_paren,
    parse,
    semi,
    texts,
    tokens,
    CommandType,
    ParseError,
    ParseState,
    Tokenizer,
    Tree,
};

verus! {

/// What a process of the shell does next.
pub enum Act {
    Close(u64),
    Open(Seq<u8>, u64),
    MakePipe,
    Fork,
    Dup(u64),
    Wait,
    Exec(Seq<u8>, Seq<Seq<u8>>),
    Exit(u64),
    /// Says why, and exits with 1: a text and what it is about
    Die(Seq<char>, Seq<u8>),
    /// Panics.
    Panic(Seq<char>),
}

/// What follows when all steps are done.
pub enum After {
    Run(Tree),
    Exit(u64),
}

/// How far a process of the shell is.
pub enum Job {
    /// A command is to be run.
    Start(Tree),
    /// The descriptor is closed, the file is to be opened.
    Opening(Tree, Seq<u8>, u64),
    /// A pipe is made, the process for its left side is to be made.
    LeftFork(u64, u64, Tree, Tree),
    /// The process for the right side is to be made.
    RightFork(u64, u64, Tree),
    /// The first command of a list runs.
    ListWait(Tree),
    /// Calls that must all succeed.
    Steps(Seq<Act>, After),
    /// The last thing that the process does.
    End(Act),
}

/// The numbers that a call gave back.
pub type Reply = Result<(u64, u64), SysError>;

pub open spec fn unwrapped() -> Seq<char> {
    "called `Result::unwrap()` on an `Err` value"@
}

/// What the left side of a pipe does: it won't read, and writes to the pipe.
pub open spec fn left_steps(r: u64, w: u64) -> Seq<Act> {
    seq![Act::Close(r), Act::Close(Fd::STDOUT), Act::Dup(w), Act::Close(w)]
}

/// What the right side of a pipe does: it won't write, and reads from the pipe.
pub open spec fn right_steps(r: u64, w: u64) -> Seq<Act> {
    seq![Act::Close(w), Act::Close(Fd::STDIN), Act::Dup(r), Act::Close(r)]
}

/// What the shell itself does with a pipe: it waits for both sides.
pub open spec fn parent_steps(r: u64, w: u64) -> Seq<Act> {
    seq![Act::Close(r), Act::Close(w), Act::Wait, Act::Wait]
}

/// Every command in it has a name, or a redirection to set up.
pub open spec fn runnable(t: Tree) -> bool
    decreases t,
{
    match t {
        Tree::Exec(argv) => argv.len() > 0,
        Tree::Redirect(cmd, _, _, _) => *cmd is Exec || runnable(*cmd),
        Tree::Pipe(left, right) => runnable(*left) && runnable(*right),
        Tree::List(left, right) => runnable(*left) && runnable(*right),
        Tree::Background(cmd) => runnable(*cmd),
    }
}

/// The name of a command. It is empty where there are no arguments.
pub open spec fn name_of(argv: Seq<Seq<u8>>) -> Seq<u8> {
    if argv.len() > 0 {
        argv[0]
    } else {
        seq![]
    }
}

impl After {
    /// What follows.
    pub open spec fn job(self) -> Job {
        match self {
            After::Run(t) => Job::Start(t),
            After::Exit(code) => Job::End(Act::Exit(code)),
        }
    }
}

impl Job {
    pub open spec fn wf(self) -> bool {
        match self {
            Job::Steps(steps, _) => steps.len() > 0,
            Job::End(act) => act is Exit || act is Die || act is Panic,
            _ => true,
        }
    }

    /// The next thing to do.
    pub open spec fn act(self) -> Act {
        match self {
            Job::Start(t) => match t {
                Tree::Exec(argv) => if name_of(argv).len() >= MAXPATH {
                    Act::Die("sh: command too long"@, seq![])
                } else {
                    Act::Exec(seq![0x2fu8] + name_of(argv), argv)
                },
                Tree::Redirect(_, _, _, fd) => Act::Close(fd),
                Tree::Pipe(_, _) => Act::MakePipe,
                Tree::List(_, _) => Act::Fork,
                Tree::Background(_) => Act::Fork,
            },
            Job::Opening(_, file, mode) => Act::Open(file, mode),
            Job::LeftFork(_, _, _, _) => Act::Fork,
            Job::RightFork(_, _, _) => Act::Fork,
            Job::ListWait(_) => Act::Wait,
            Job::Steps(steps, _) => steps[0],
            Job::End(act) => act,
        }
    }

    /// How it goes on after the reply.
    pub open spec fn next(self, reply: Reply) -> Job {
        match self {
            Job::Start(t) => match t {
                Tree::Exec(argv) => Job::End(
                    if name_of(argv).len() >= MAXPATH {
                        Act::Die("sh: command too long"@, seq![])
                    } else {
                        Act::Die("sh: exec failed "@, name_of(argv))
                    },
                ),
                Tree::Redirect(cmd, file, mode, _) => match reply {
                    Ok(_) => Job::Opening(*cmd, file, mode),
                    Err(_) => Job::End(Act::Panic(unwrapped())),
                },
                Tree::Pipe(left, right) => match reply {
                    Ok((r, w)) => Job::LeftFork(r, w, *left, *right),
                    Err(_) => Job::End(Act::Panic("sh: pipe failed"@)),
                },
                Tree::List(left, right) => match reply {
                    Ok((pid, _)) => if pid == 0 {
                        Job::Start(*left)
                    } else {
                        Job::ListWait(*right)
                    },
                    Err(_) => Job::End(Act::Panic("sh: fork failed"@)),
                },
                Tree::Background(cmd) => match reply {
                    Ok((pid, _)) => if pid == 0 {
                        Job::Start(*cmd)
                    } else {
                        Job::End(Act::Exit(0))
                    },
                    Err(_) => Job::End(Act::Panic("sh: fork failed"@)),
                },
            },
            Job::Opening(cmd, file, _) => match reply {
                Ok(_) => Job::Start(cmd),
                Err(_) => Job::End(Act::Die("sh: cannot open "@, file)),
            },
            Job::LeftFork(r, w, left, right) => match reply {
                Ok((pid, _)) => if pid == 0 {
                    Job::Steps(left_steps(r, w), After::Run(left))
                } else {
                    Job::RightFork(r, w, right)
                },
                Err(_) => Job::End(Act::Panic("sh: fork failed"@)),
            },
            Job::RightFork(r, w, right) => match reply {
                Ok((pid, _)) => if pid == 0 {
                    Job::Steps(right_steps(r, w), After::Run(right))
                } else {
                    Job::Steps(parent_steps(r, w), After::Exit(0))
                },
                Err(_) => Job::End(Act::Panic("sh: fork failed"@)),
            },
            Job::ListWait(right) => Job::Start(right),
            Job::Steps(steps, after) => match reply {
                Ok(_) => if steps.len() > 1 {
                    Job::Steps(steps.skip(1), after)
                } else {
                    after.job()
                },
                Err(_) => Job::End(Act::Panic(unwrapped())),
            },
            Job::End(act) => self,
        }
    }
}

/// What a process of the shell does next.
#[derive(Debug)]
pub enum Action {
    Close(u64),
    Open(Vec<u8>, u64),
    MakePipe,
    Fork,
    Dup(u64),
    Wait,
    Exec(Vec<u8>, Vec<Vec<u8>>),
    Exit(u64),
    /// Says why, and exits with 1: a text and what it is about
    Die(&'static str, Vec<u8>),
    /// Panics.
    Panic(&'static str),
}

impl View for Action {
    type V = Act;

    open spec fn view(&self) -> Act {
        match *self {
            Action::Close(fd) => Act::Close(fd),
            Action::Open(file, mode) => Act::Open(file@, mode),
            Action::MakePipe => Act::MakePipe,
            Action::Fork => Act::Fork,
            Action::Dup(fd) => Act::Dup(fd),
            Action::Wait => Act::Wait,
            Action::Exec(path, argv) => Act::Exec(path@, texts(argv@)),
            Action::Exit(code) => Act::Exit(code),
            Action::Die(text, subject) => Act::Die(text@, subject@),
            Action::Panic(text) => Act::Panic(text@),
        }
    }
}

/// Calls of which each must succeed, with nothing but a descriptor.
#[derive(Debug, Clone, Copy, PartialEq, Eq, Structural)]
pub enum Step {
    Close(u64),
    Dup(u64),
    Wait,
}

impl Step {
    pub open spec fn act(self) -> Act {
        match self {
            Step::Close(fd) => Act::Close(fd),
            Step::Dup(fd) => Act::Dup(fd),
            Step::Wait => Act::Wait,
        }
    }
}

/// How far a process of the shell is.
#[derive(Debug)]
pub enum Task {
    Start(CommandType),
    Opening(Box<CommandType>, Vec<u8>, u64),
    LeftFork(u64, u64, Box<CommandType>, Box<CommandType>),
    RightFork(u64, u64, Box<CommandType>),
    ListWait(Box<CommandType>),
    /// Four calls, how many of them are done, and what runs then, if anything does
    Steps([Step; 4], usize, Option<Box<CommandType>>),
    End(Action),
}

/// What follows when the steps are done.
pub open spec fn after(cmd: Option<Box<CommandType>>) -> After {
    match cmd {
        Some(c) => After::Run(c.tree()),
        None => After::Exit(0),
    }
}

impl View for Task {
    type V = Job;

    open spec fn view(&self) -> Job {
        match *self {
            Task::Start(c) => Job::Start(c.tree()),
            Task::Opening(c, file, mode) => Job::Opening(c.tree(), file@, mode),
            Task::LeftFork(r, w, left, right) => Job::LeftFork(r, w, left.tree(), right.tree()),
            Task::RightFork(r, w, right) => Job::RightFork(r, w, right.tree()),
            Task::ListWait(right) => Job::ListWait(right.tree()),
            Task::Steps(steps, done, c) => Job::Steps(
                steps@.map_values(|s: Step| s.act()).skip(done as int),
                after(c),
            ),
            Task::End(a) => Job::End(a@),
        }
    }
}

/// A copy of bytes.
fn copied(s: &[u8]) -> (r: Vec<u8>)
    ensures
        r@ == s@,
{
    let mut v: Vec<u8> = Vec::new();
    v.extend_from_slice(s);
    assert(v@ =~= s@);
    v
}

/// A copy of each.
fn copied_all(v: &Vec<Vec<u8>>) -> (r: Vec<Vec<u8>>)
    ensures
        texts(r@) == texts(v@),
{
    let mut r: Vec<Vec<u8>> = Vec::new();
    while r.len() < v.len()
        invariant
            r@.len() <= v@.len(),
            texts(r@) =~= texts(v@).take(r@.len() as int),
        decreases v@.len() - r@.len(),
    {
        let ghost r0 = r@;
        let t = copied(v[r.len()].as_slice());
        r.push(t);
        assert(texts(r@) =~= texts(r0).push(t@));
    }
    assert(texts(r@) =~= texts(v@));
    r
}

/// The name of a command.
fn name(argv: &Vec<Vec<u8>>) -> (r: Vec<u8>)
    ensures
        r@ == name_of(texts(argv@)),
{
    if argv.len() > 0 {
        assert(texts(argv@)[0] == argv@[0]@);
        copied(argv[0].as_slice())
    } else {
        Vec::new()
    }
}

impl Task {
    pub open spec fn wf(&self) -> bool {
        self@.wf() && (self matches Task::Steps(_, done, _) ==> *done < 4)
    }

    /// The next thing to do.
    pub fn action(&self) -> (r: Action)
        requires
            self.wf(),
        ensures
            r@ == self@.act(),
    {
        match self {
            Task::Start(c) => match c {
                CommandType::Exec { argv } => {
                    let cmd = name(argv);
                    if cmd.len() >= MAXPATH {
                        let r = Action::Die("sh: command too long", Vec::new());
                        assert(r@ == self@.act());
                        r
                    } else {
                        let mut path: Vec<u8> = Vec::new();
                        path.push(0x2f);
                        path.extend_from_slice(cmd.as_slice());
                        assert(path@ =~= seq![0x2fu8] + cmd@);
                        Action::Exec(path, copied_all(argv))
                    }
                },
                CommandType::Redirect { fd, .. } => Action::Close(*fd),
                CommandType::Pipe { .. } => Action::MakePipe,
                CommandType::List { .. } => Action::Fork,
                CommandType::Background { .. } => Action::Fork,
            },
            Task::Opening(_, file, mode) => Action::Open(copied(file.as_slice()), *mode),
            Task::LeftFork(_, _, _, _) => Action::Fork,
            Task::RightFork(_, _, _) => Action::Fork,
            Task::ListWait(_) => Action::Wait,
            Task::Steps(steps, done, _) => match steps[*done] {
                Step::Close(fd) => Action::Close(fd),
                Step::Dup(fd) => Action::Dup(fd),
                Step::Wait => Action::Wait,
            },
            Task::End(a) => match a {
                Action::Exit(code) => Action::Exit(*code),
                Action::Die(text, subject) => Action::Die(text, copied(subject.as_slice())),
                Action::Panic(text) => Action::Panic(text),
                _ => Action::Exit(0),
            },
        }
    }

    /// Goes on after the reply.
    pub fn advance(self, reply: Reply) -> (r: Task)
        requires
            self.wf(),
        ensures
            r@ == self@.next(reply),
            r.wf(),
    {
        match self {
            Task::Start(c) => run_cmd(c, reply),
            Task::Opening(c, file, _) => match reply {
                // now fd 0 or 1 points to the file
                Ok(_) => Task::Start(*c),
                Err(_) => Task::End(Action::Die("sh: cannot open ", file)),
            },
            Task::LeftFork(r, w, left, right) => match reply {
                Ok((pid, _)) => if pid == 0 {
                    let steps = [
                        // won't read from pipe, close read side
                        Step::Close(r),
                        // close STDOUT to free fd 1
                        Step::Close(Fd::STDOUT),
                        // the write side is copied to the lowest free fd (1)
                        Step::Dup(w),
                        // won't need the original fd anymore
                        Step::Close(w),
                    ];
                    let t = Task::Steps(steps, 0, Some(left));
                    assert(steps@.map_values(|s: Step| s.act()).skip(0) =~= left_steps(r, w));
                    t
                } else {
                    Task::RightFork(r, w, right)
                },
                Err(_) => Task::End(Action::Panic("sh: fork failed")),
            },
            Task::RightFork(r, w, right) => match reply {
                Ok((pid, _)) => if pid == 0 {
                    let steps = [
                        // won't write to pipe, close write side
                        Step::Close(w),
                        // close STDIN to free fd 0
                        Step::Close(Fd::STDIN),
                        // the read side is copied to the lowest free fd (0)
                        Step::Dup(r),
                        // won't need the original fd anymore
                        Step::Close(r),
                    ];
                    let t = Task::Steps(steps, 0, Some(right));
                    assert(steps@.map_values(|s: Step| s.act()).skip(0) =~= right_steps(r, w));
                    t
                } else {
                    let steps = [Step::Close(r), Step::Close(w), Step::Wait, Step::Wait];
                    let t = Task::Steps(steps, 0, None);
                    assert(steps@.map_values(|s: Step| s.act()).skip(0) =~= parent_steps(r, w));
                    t
                },
                Err(_) => Task::End(Action::Panic("sh: fork failed")),
            },
            Task::ListWait(right) => Task::Start(*right),
            Task::Steps(steps, done, c) => match reply {
                Ok(_) => {
                    let ghost all = steps@.map_values(|s: Step| s.act());
                    assert(all.skip(done as int).skip(1) =~= all.skip(done + 1));
                    if done < 3 {
                        Task::Steps(steps, done + 1, c)
                    } else {
                        match c {
                            Some(c) => Task::Start(*c),
                            None => Task::End(Action::Exit(0)),
                        }
                    }
                },
                Err(_) => Task::End(
                    Action::Panic("called `Result::unwrap()` on an `Err` value"),
                ),
            },
            Task::End(a) => Task::End(a),
        }
    }
}

/// Goes on with a command after the reply to its first call.
fn run_cmd(c: CommandType, reply: Reply) -> (r: Task)
    ensures
        r@ == Job::Start(c.tree()).next(reply),
        r.wf(),
{
    match c {
        CommandType::Exec { argv } => {
            let cmd = name(&argv);
            if cmd.len() >= MAXPATH {
                let r = Task::End(Action::Die("sh: command too long", Vec::new()));
                assert(r@ == Job::Start(c.tree()).next(reply));
                r
            } else {
                Task::End(Action::Die("sh: exec failed ", cmd))
            }
        },
        CommandType::Redirect { cmd, file, mode, fd } => match reply {
            Ok(_) => Task::Opening(cmd, file, mode),
            Err(_) => Task::End(Action::Panic("called `Result::unwrap()` on an `Err` value")),
        },
        CommandType::Pipe { left, right } => match reply {
            Ok((r, w)) => Task::LeftFork(r, w, left, right),
            Err(_) => Task::End(Action::Panic("sh: pipe failed")),
        },
        CommandType::List { left, right } => match reply {
            Ok((pid, _)) => if pid == 0 {
                Task::Start(*left)
            } else {
                Task::ListWait(right)
            },
            Err(_) => Task::End(Action::Panic("sh: fork failed")),
        },
        CommandType::Background { cmd } => match reply {
            Ok((pid, _)) => if pid == 0 {
                Task::Start(*cmd)
            } else {
                // do not wait
                Task::End(Action::Exit(0))
            },
            Err(_) => Task::End(Action::Panic("sh: fork failed")),
        },
    }
}

/// What the shell does with a line.
pub enum Plan {
    Nothing,
    Exit,
    /// Changes the directory of the shell itself.
    ChangeDir(Seq<u8>),
    /// Runs the line in a process of its own, and waits for it.
    Run,
}

/// What the shell does with a line.
#[derive(Debug)]
pub enum Choice {
    Nothing,
    Exit,
    ChangeDir(Vec<u8>),
    Run,
}

impl View for Choice {
    type V = Plan;

    open spec fn view(&self) -> Plan {
        match *self {
            Choice::Nothing => Plan::Nothing,
            Choice::Exit => Plan::Exit,
            Choice::ChangeDir(path) => Plan::ChangeDir(path@),
            Choice::Run => Plan::Run,
        }
    }
}

/// What the shell does with a line.
pub open spec fn plan(line: Seq<u8>) -> Plan {
    let t = tokens(line, 0);
    if t.len() == 0 {
        Plan::Nothing
    } else if t[0] == seq![0x65u8, 0x78, 0x69, 0x74] {
        Plan::Exit
    } else if t[0] == seq![0x63u8, 0x64] {
        Plan::ChangeDir(
            if t.len() > 1 {
                t[1]
            } else {
                seq![0x2f]
            },
        )
    } else {
        Plan::Run
    }
}

/// Decides what to do with a line.
pub fn decide(line: &[u8]) -> (r: Choice)
    ensures
        r@ == plan(line@),
{
    let mut tokenizer = Tokenizer::new(line);
    match tokenizer.next_token() {
        None => Choice::Nothing,
        Some(t) => {
            let ghost rest = tokens(line@, tokenizer.cursor());
            assert(tokens(line@, 0)[0] == t@);
            let is_exit = t.len() == 4 && t[0] == 0x65 && t[1] == 0x78 && t[2] == 0x69 && t[3]
                == 0x74;
            let is_cd = t.len() == 2 && t[0] == 0x63 && t[1] == 0x64;
            assert(is_exit == (t@ =~= seq![0x65u8, 0x78, 0x69, 0x74]));
            assert(is_cd == (t@ =~= seq![0x63u8, 0x64]));
            if is_exit {
                Choice::Exit
            } else if is_cd {
                // chdir must happen from the parent, do not fork
                match tokenizer.next_token() {
                    Some(path) => {
                        assert(tokens(line@, 0)[1] == rest[0]);
                        Choice::ChangeDir(path)
                    },
                    None => {
                        let mut path: Vec<u8> = Vec::new();
                        path.push(0x2f);
                        assert(path@ =~= seq![0x2f]);
                        Choice::ChangeDir(path)
                    },
                }
            } else {
                Choice::Run
            }
        },
    }
}

/// Why a line that cannot be read panics.
pub open spec fn complaint(e: ParseError) -> Seq<char> {
    match e {
        ParseError::ArenaOverflow => "sh: arena overflow"@,
        ParseError::ArgvOverflow => "argv arena overflow"@,
        ParseError::TooManyArgs => "sh: too many args"@,
        ParseError::ExpectedParen => "sh: expected ')'"@,
        ParseError::MissingFile => "file"@,
    }
}

/// What a process does that is made for a line.
pub open spec fn job_for(line: Seq<u8>) -> Job {
    match meaning(line) {
        Ok(Some(t)) => Job::Start(t),
        Ok(None) => Job::End(Act::Die("sh: parse failed"@, seq![])),
        Err(e) => Job::End(Act::Panic(complaint(e))),
    }
}

/// Begins to run a line, in a process that is made for it.
pub fn begin(line: &[u8]) -> (r: Task)
    ensures
        r@ == job_for(line@),
        r.wf(),
{
    match parse(line) {
        Ok(Some(c)) => Task::Start(c),
        Ok(None) => {
            let r = Task::End(Action::Die("sh: parse failed", Vec::new()));
            assert(r@ == job_for(line@));
            r
        },
        Err(e) => Task::End(
            Action::Panic(
                match e {
                    ParseError::ArenaOverflow => "sh: arena overflow",
                    ParseError::ArgvOverflow => "argv arena overflow",
                    ParseError::TooManyArgs => "sh: too many args",
                    ParseError::ExpectedParen => "sh: expected ')'",
                    ParseError::MissingFile => "file",
                },
            ),
        ),
    }
}

/// What the shell does at its start with each reply to opening the console.
#[derive(Debug, Clone, Copy, PartialEq, Eq, Structural)]
pub enum Setup {
    /// Open it again: the first three descriptors are not all open yet.
    Again,
    /// Close this one again; all is set up.
    Ready(u64),
    /// There is no console: say so, and exit with 1.
    Fail,
}

/// Makes sure that three file descriptors are open.
pub fn setup(opened: Result<u64, SysError>) -> (r: Setup)
    ensures
        r == (match opened {
            Err(_) => Setup::Fail,
            Ok(fd) => if fd >= 3 {
                Setup::Ready(fd)
            } else {
                Setup::Again
            },
        }),
{
    match opened {
        Err(_) => Setup::Fail,
        Ok(fd) => {
            if fd >= 3 {
                Setup::Ready(fd)
            } else {
                Setup::Again
            }
        },
    }
}

/// Every command of a line that can be read has a name, or a redirection to set up.
pub proof fn law_runnable(line: Seq<u8>)
    ensures
        meaning(line) matches Ok(Some(t)) ==> runnable(t),
{
    lemma_line(ParseState { rest: tokens(line, 0), nodes: 0, args: 0 });
}

proof fn lemma_redirects(s: ParseState, cmd: Tree)
    requires
        runnable(cmd) || (cmd is Exec && s.redirection() is Some),
    ensures
        s.redirects(cmd) matches Ok((Some(t), _)) ==> runnable(t),
    decreases s.rest.len(),
{
    if let Some((mode, fd)) = s.redirection() {
        if s.rest.len() >= 2 {
            if let Ok(n) = s.skip(2).node() {
                lemma_redirects(n, Tree::Redirect(Box::new(cmd), s.rest[1], mode, fd));
            }
        }
    }
}

proof fn lemma_backgrounds(s: ParseState, cmd: Tree)
    requires
        runnable(cmd),
    ensures
        s.backgrounds(cmd) matches Ok((t, _)) ==> runnable(t),
    decreases s.rest.len(),
{
    if s.at(amp()) {
        if let Ok(n) = s.skip(1).node() {
            lemma_backgrounds(n, Tree::Background(Box::new(cmd)));
        }
    }
}

proof fn lemma_exec(s: ParseState)
    ensures
        s.exec() matches Ok((Some(t), _)) ==> runnable(t),
    decreases s.rest.len(), 0int,
{
    if s.at(open_paren()) {
        lemma_line(s.skip(1));
        if let Ok((Some(cmd), n)) = s.skip(1).line() {
            lemma_redirects(n.skip(1), cmd);
        }
    } else {
        let n = leading_words(s.rest);
        lemma_leading_words(s.rest);
        assert(s.skip(0) =~= s);
        if n > 0 || s.redirection() is Some {
            lemma_redirects(
                ParseState { args: s.args + n, ..s.skip(n) },
                Tree::Exec(s.rest.take(n)),
            );
        }
    }
}

proof fn lemma_pipe(s: ParseState)
    ensures
        s.pipe() matches Ok((Some(t), _)) ==> runnable(t),
    decreases s.rest.len(), 1int,
{
    lemma_exec(s);
    if let Ok((Some(left), n)) = s.exec() {
        if n.at(bar()) && n.rest.len() <= s.rest.len() {
            lemma_pipe(n.skip(1));
        }
    }
}

proof fn lemma_line(s: ParseState)
    ensures
        s.line() matches Ok((Some(t), _)) ==> runnable(t),
    decreases s.rest.len(), 2int,
{
    lemma_pipe(s);
    if let Ok((Some(cmd), n)) = s.pipe() {
        lemma_backgrounds(n, cmd);
        if let Ok((left, n)) = n.backgrounds(cmd) {
            if n.at(semi()) && n.rest.len() <= s.rest.len() {
                lemma_line(n.skip(1));
            }
        }
    }
}

/// The descriptors of a process after some steps that all succeed. `None` if one of them cannot.
pub open spec fn performed(open: Seq<Option<File>>, steps: Seq<Act>) -> Option<Seq<Option<File>>>
    decreases steps.len(),
{
    if steps.len() == 0 {
        Some(open)
    } else {
        match steps[0] {
            Act::Close(fd) => if fd < open.len() && open[fd as int] is Some {
                performed(open.update(fd as int, None), steps.skip(1))
            } else {
                None
            },
            Act::Dup(fd) => if fd < open.len() && open[fd as int] is Some {
                let (given, r) = fd_given(open, open[fd as int]->0);
                if r is Ok {
                    performed(given, steps.skip(1))
                } else {
                    None
                }
            } else {
                None
            },
            Act::Wait => performed(open, steps.skip(1)),
            _ => None,
        }
    }
}

/// The left side of a pipe runs with its standard output at the end of the pipe that is written
/// to, with no other descriptor for the pipe, and with all others as they were.
pub proof fn law_left_side(open: Seq<Option<File>>, r: u64, w: u64)
    requires
        open.len() == NOFILE,
        open[0] is Some,
        open[1] is Some,
        1 < r < NOFILE,
        1 < w < NOFILE,
        r != w,
        open[r as int] is Some,
        open[w as int] is Some,
    ensures
        performed(open, left_steps(r, w)) == Some(
            open.update(1, open[w as int]).update(r as int, None).update(w as int, None),
        ),
{
    let steps = left_steps(r, w);
    let a = open.update(r as int, None);
    let b = a.update(1, None);
    assert(first_fd(b, 0) == first_fd(b, 1) == 1);
    let c = b.update(1, open[w as int]);
    assert(steps.skip(1)[0] == Act::Close(1));
    assert(steps.skip(1).skip(1)[0] == Act::Dup(w));
    assert(steps.skip(1).skip(1).skip(1)[0] == Act::Close(w));
    assert(fd_given(b, open[w as int]->0).0 =~= c);
    reveal_with_fuel(performed, 5);
    assert(c.update(w as int, None) =~= open.update(1, open[w as int]).update(
        r as int,
        None,
    ).update(w as int, None));
}

/// The right side of a pipe runs with its standard input at the end of the pipe that is read
/// from, with no other descriptor for the pipe, and with all others as they were.
pub proof fn law_right_side(open: Seq<Option<File>>, r: u64, w: u64)
    requires
        open.len() == NOFILE,
        open[0] is Some,
        1 < r < NOFILE,
        1 < w < NOFILE,
        r != w,
        open[r as int] is Some,
        open[w as int] is Some,
    ensures
        performed(open, right_steps(r, w)) == Some(
            open.update(0, open[r as int]).update(r as int, None).update(w as int, None),
        ),
{
    let steps = right_steps(r, w);
    let a = open.update(w as int, None);
    let b = a.update(0, None);
    assert(first_fd(b, 0) == 0);
    let c = b.update(0, open[r as int]);
    assert(steps.skip(1)[0] == Act::Close(0));
    assert(steps.skip(1).skip(1)[0] == Act::Dup(r));
    assert(steps.skip(1).skip(1).skip(1)[0] == Act::Close(r));
    assert(fd_given(b, open[r as int]->0).0 =~= c);
    reveal_with_fuel(performed, 5);
    assert(c.update(r as int, None) =~= open.update(0, open[r as int]).update(
        r as int,
        None,
    ).update(w as int, None));
}

/// The shell itself keeps no descriptor for the pipe, so that its readers see its end.
pub proof fn law_shell_keeps_no_pipe(open: Seq<Option<File>>, r: u64, w: u64)
    requires
        r < open.len(),
        w < open.len(),
        r != w,
        open[r as int] is Some,
        open[w as int] is Some,
    ensures
        performed(open, parent_steps(r, w)) == Some(
            open.update(r as int, None).update(w as int, None),
        ),
{
    let steps = parent_steps(r, w);
    assert(steps.skip(1)[0] == Act::Close(w));
    assert(steps.skip(1).skip(1)[0] == Act::Wait);
    assert(steps.skip(1).skip(1).skip(1)[0] == Act::Wait);
    reveal_with_fuel(performed, 5);
}

} // verus!
