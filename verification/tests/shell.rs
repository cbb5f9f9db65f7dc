use octopos::abi::SysError;
use octopos::fs::{InodeType, Stat};
use octopos::user::args::{str_from_cstr, Args};
use octopos::user::calls;
use octopos::user::calls::Fd;
use octopos::user::io::{Read, Stderr, Stdin, Stdout, Write};
use octopos::user::line::{End, LineEditor};
use octopos::user::ls;
use octopos::user::raw;
use octopos::user::sh::parse::{parse, CommandType, ParseError, Tokenizer};
use octopos::user::sh::run::{begin, decide, setup, Action, Choice, Setup, Task};
use octopos::user::text::{is_utf8, space_at, write_decimal};
use octopos::user::tools::{cat, parse_pid, Copying};
use octopos::user::wc::Counter;

/// A command as a string, with parentheses round every part.
fn show(c: &CommandType) -> String {
    let s = |v: &Vec<u8>| String::from_utf8(v.clone()).unwrap();
    match c {
        CommandType::Exec { argv } => argv.iter().map(s).collect::<Vec<_>>().join(" "),
        CommandType::Redirect { cmd, file, mode, fd } => {
            format!("[{} {}:{:x} {}]", show(cmd), fd, mode, s(file))
        }
        CommandType::Pipe { left, right } => format!("({} | {})", show(left), show(right)),
        CommandType::List { left, right } => format!("({} ; {})", show(left), show(right)),
        CommandType::Background { cmd } => format!("({} &)", show(cmd)),
    }
}

fn tree(line: &str) -> String {
    show(&parse(line.as_bytes()).unwrap().unwrap())
}

#[test]
fn tokens() {
    let mut t = Tokenizer::new(b"  ls -l>>out|wc;(a&)<\tin ");
    let mut all = vec![];
    while let Some(token) = t.next_token() {
        all.push(String::from_utf8(token).unwrap());
    }
    assert_eq!(
        all,
        vec!["ls", "-l", ">>", "out", "|", "wc", ";", "(", "a", "&", ")", "<", "in"]
    );
    assert_eq!(t.next_token(), None);
}

#[test]
fn commands() {
    assert_eq!(tree("ls -l"), "ls -l");
    assert_eq!(tree("a | b | c"), "(a | (b | c))");
    assert_eq!(tree("a ; b ; c"), "(a ; (b ; c))");
    assert_eq!(tree("a | b & ; c"), "(((a | b) &) ; c)");
    assert_eq!(tree("a & &"), "((a &) &)");
    assert_eq!(tree("(a ; b) | c"), "((a ; b) | c)");
    assert_eq!(tree("a < in > out"), "[[a 0:0 in] 1:601 out]");
    assert_eq!(tree("a >> out"), "[a 1:201 out]");
    assert_eq!(tree("a ;"), "a");
}

#[test]
fn nothing_to_run() {
    assert!(parse(b"").unwrap().is_none());
    assert!(parse(b"   ").unwrap().is_none());
    assert!(parse(b"| a").unwrap().is_none());
    assert!(parse(b"a |").unwrap().is_none());
}

#[test]
fn redirection_alone() {
    assert_eq!(tree("> out"), "[ 1:601 out]");
    assert_eq!(tree("< in >> out"), "[[ 0:0 in] 1:201 out]");
    assert_eq!(tree("a | > out ; b"), "((a | [ 1:601 out]) ; b)");
    assert_eq!(parse(b">").err(), Some(ParseError::MissingFile));
    // the file is opened, and then there is no program to run
    let mut task = begin(b"> out");
    assert!(matches!(task.action(), Action::Close(1)));
    task = task.advance(Ok((0, 0)));
    match task.action() {
        Action::Open(file, mode) => assert_eq!((file, mode), (b"out".to_vec(), 0x601)),
        other => panic!("{other:?}"),
    }
    task = task.advance(Ok((1, 0)));
    match task.action() {
        Action::Exec(path, argv) => assert_eq!((path, argv.len()), (b"/".to_vec(), 0)),
        other => panic!("{other:?}"),
    }
    task = task.advance(Err(SysError::IsDirectory));
    match task.action() {
        Action::Die(text, subject) => assert_eq!((text, subject), ("sh: exec failed ", vec![])),
        other => panic!("{other:?}"),
    }
}

#[test]
fn tokens_lose_white_space_only() {
    let line = " a  b>>>c \u{3000}d\u{a0}e ".as_bytes();
    let mut t = Tokenizer::new(line);
    let mut all = vec![];
    while let Some(token) = t.next_token() {
        all.push(token);
    }
    let expected: [&[u8]; 7] = [b"a", b"b", b">>", b">", b"c", b"d", b"e"];
    assert_eq!(all, expected.iter().map(|t| t.to_vec()).collect::<Vec<_>>());
    assert_eq!(all.concat(), b"ab>>>cde".to_vec());
    assert_eq!(t.next_token(), None);
    assert_eq!(t.next_token(), None);
}

#[test]
fn parse_errors() {
    assert_eq!(parse(b"(a").err(), Some(ParseError::ExpectedParen));
    assert_eq!(parse(b"a >").err(), Some(ParseError::MissingFile));
    assert_eq!(parse("a ".repeat(17).as_bytes()).err(), Some(ParseError::TooManyArgs));
    assert!(parse("a ".repeat(16).as_bytes()).is_ok());
    let line = format!("{} ; {}", "a ".repeat(16), "a ".repeat(16));
    assert_eq!(parse(line.as_bytes()).err(), Some(ParseError::ArgvOverflow));
    let line = "a &".to_string() + &"&".repeat(15);
    assert_eq!(parse(line.as_bytes()).err(), Some(ParseError::ArenaOverflow));
    let line = "a &".to_string() + &"&".repeat(14);
    assert!(parse(line.as_bytes()).is_ok());
}

#[test]
fn lines_are_decided() {
    assert!(matches!(decide(b"  "), Choice::Nothing));
    assert!(matches!(decide(b"exit now"), Choice::Exit));
    assert!(matches!(decide(b"ls"), Choice::Run));
    match decide(b"cd /bin") {
        Choice::ChangeDir(path) => assert_eq!(path, b"/bin".to_vec()),
        other => panic!("{:?}", other),
    }
    match decide(b"cd") {
        Choice::ChangeDir(path) => assert_eq!(path, b"/".to_vec()),
        other => panic!("{:?}", other),
    }
    assert_eq!(setup(Ok(2)), Setup::Again);
    assert_eq!(setup(Ok(3)), Setup::Ready(3));
    assert_eq!(setup(Err(SysError::NoEntry)), Setup::Fail);
}

/// Runs a task until it ends or runs a program, with the given replies.
fn run(mut task: Task, replies: &[Result<(u64, u64), SysError>]) -> (Vec<String>, Task) {
    let mut log = vec![];
    for r in replies {
        log.push(format!("{:?}", task.action()));
        task = task.advance(*r);
    }
    (log, task)
}

#[test]
fn left_side_of_a_pipe() {
    let ok = Ok((0, 0));
    let (log, task) = run(begin(b"ls | wc"), &[Ok((3, 4)), ok, ok, ok, Ok((1, 0)), ok]);
    assert_eq!(log, vec!["MakePipe", "Fork", "Close(3)", "Close(1)", "Dup(4)", "Close(4)"]);
    match task.action() {
        Action::Exec(path, argv) => {
            assert_eq!(path, b"/ls".to_vec());
            assert_eq!(argv, vec![b"ls".to_vec()]);
        }
        other => panic!("{:?}", other),
    }
    let task = task.advance(Err(SysError::NoEntry));
    match task.action() {
        Action::Die(text, subject) => {
            assert_eq!((text, subject), ("sh: exec failed ", b"ls".to_vec()))
        }
        other => panic!("{:?}", other),
    }
}

#[test]
fn right_side_of_a_pipe() {
    let ok = Ok((0, 0));
    let (log, task) = run(begin(b"ls | wc"), &[Ok((3, 4)), Ok((9, 0)), ok, ok, ok, ok, ok]);
    assert_eq!(
        log,
        vec!["MakePipe", "Fork", "Fork", "Close(4)", "Close(0)", "Dup(3)", "Close(3)"]
    );
    assert!(matches!(task.action(), Action::Exec(_, _)));
}

#[test]
fn shell_waits_for_both_sides() {
    let ok = Ok((0, 0));
    let replies = [Ok((3, 4)), Ok((9, 0)), Ok((10, 0)), ok, ok, ok, ok];
    let (log, task) = run(begin(b"ls | wc"), &replies);
    assert_eq!(log, vec!["MakePipe", "Fork", "Fork", "Close(3)", "Close(4)", "Wait", "Wait"]);
    assert!(matches!(task.action(), Action::Exit(0)));
}

#[test]
fn redirections_lists_and_background() {
    let ok = Ok((0, 0));
    let (log, task) = run(begin(b"a < f"), &[ok, ok]);
    assert_eq!(log, vec!["Close(0)".to_string(), format!("{:?}", Action::Open(b"f".to_vec(), 0))]);
    assert!(matches!(task.action(), Action::Exec(_, _)));
    let (_, task) = run(begin(b"a < f"), &[ok, Err(SysError::NoEntry)]);
    match task.action() {
        Action::Die(text, file) => assert_eq!((text, file), ("sh: cannot open ", b"f".to_vec())),
        other => panic!("{:?}", other),
    }
    let (log, task) = run(begin(b"a ; b"), &[Ok((5, 0)), Err(SysError::NoChildren)]);
    assert_eq!(log, vec!["Fork", "Wait"]);
    match task.action() {
        Action::Exec(path, _) => assert_eq!(path, b"/b".to_vec()),
        other => panic!("{:?}", other),
    }
    let (_, task) = run(begin(b"a &"), &[Ok((5, 0))]);
    assert!(matches!(task.action(), Action::Exit(0)));
    let (_, task) = run(begin(b"a &"), &[ok]);
    assert!(matches!(task.action(), Action::Exec(_, _)));
    let (_, task) = run(begin(b"a | b"), &[Err(SysError::TooManyFiles)]);
    assert!(matches!(task.action(), Action::Panic("sh: pipe failed")));
    assert!(matches!(begin(b"|").action(), Action::Die("sh: parse failed", _)));
    assert!(matches!(begin(b"(a").action(), Action::Panic("sh: expected ')'")));
    let long = "x".repeat(128);
    assert!(matches!(begin(long.as_bytes()).action(), Action::Die("sh: command too long", _)));
}

// the line editor

fn edit(e: &mut LineEditor, keys: &[u8]) -> (Vec<u8>, Option<End>, Vec<u8>) {
    e.begin(b"$ ");
    let r = e.read_line(keys);
    assert_eq!(r.used, keys.len());
    (e.line().to_vec(), r.end, r.out)
}

#[test]
fn typing_a_line() {
    let mut e = LineEditor::new();
    let (line, end, out) = edit(&mut e, b"ab\r");
    assert_eq!((line, end), (b"ab".to_vec(), Some(End::Line)));
    assert_eq!(out, b"\r$ a\x1b[K\r$ ab\x1b[K\r\n".to_vec());
}

#[test]
fn editing_keys() {
    let mut e = LineEditor::new();
    assert_eq!(edit(&mut e, b"abc\x7fd\r").0, b"abd".to_vec());
    assert_eq!(edit(&mut e, b"bc\x01a\x05d\r").0, b"abcd".to_vec());
    assert_eq!(edit(&mut e, b"one two\x17three\r").0, b"one three".to_vec());
    assert_eq!(edit(&mut e, b"one two  \x17\r").0, b"one ".to_vec());
    assert_eq!(edit(&mut e, b"abc\x1b[D\x1b[D\x15\r").0, b"bc".to_vec());
    assert_eq!(edit(&mut e, b"ac\x1b[Db\x1b[C\x1b[Cd\r").0, b"abcd".to_vec());
    let (line, end, out) = edit(&mut e, b"ab\x03");
    assert_eq!((line, end), (vec![], Some(End::Line)));
    assert!(out.ends_with(b"^C\r\n"));
    assert_eq!(edit(&mut e, b"\x04").1, Some(End::Closed));
    assert_eq!(edit(&mut e, b"a\x04\n").0, b"a".to_vec());
    let (_, _, out) = edit(&mut e, b"ab\x1b[D\x0c\n");
    assert!(out.ends_with(b"\x1b[2J\x1b[H\r$ ab\x1b[K\x1b[1D\r\n"));
}

#[test]
fn history() {
    let mut e = LineEditor::new();
    edit(&mut e, b"first\r");
    edit(&mut e, b"second\r");
    assert_eq!(edit(&mut e, b"\x1b[A\r").0, b"second".to_vec());
    assert_eq!(edit(&mut e, b"\x1b[A\x1b[A\x1b[A\r").0, b"first".to_vec());
    assert_eq!(edit(&mut e, b"new\x1b[A\x1b[B!\r").0, b"new!".to_vec());
    for i in 0..20u8 {
        edit(&mut e, &[b'a' + i, b'\r']);
    }
    let up = b"\x1b[A".repeat(30);
    e.begin(b"$ ");
    e.read_line(&up);
    // the oldest of the last sixteen
    assert_eq!(e.line(), b"e");
}

#[test]
fn full_line() {
    let mut e = LineEditor::new();
    e.begin(b"$ ");
    e.read_line(&[b'x'; 256]);
    assert!(e.has_room());
    // at the end of a full line characters are ignored
    e.read_line(b"y");
    assert_eq!(e.line(), &[b'x'; 256][..]);
    e.read_line(b"\x1b[D");
    assert!(!e.has_room());
    e.read_line(b"\x7f");
    assert!(e.has_room());
    assert_eq!(e.line().len(), 255);
}

// other programs

fn reply(ok: bool, fd: u64) -> ls::Reply {
    let stat = Stat { dev: 1, ino: 7, typ: InodeType::File, nlink: 1, size: 42 };
    ls::Reply { ok, fd, stat, bytes: vec![] }
}

#[test]
fn listing_a_file() {
    let t = ls::Task::Start;
    assert!(matches!(t.action(b"f"), ls::Action::Open(_)));
    let t = t.ls(b"f", reply(true, 3));
    assert!(matches!(t.action(b"f"), ls::Action::Stat(3)));
    let t = t.ls(b"f", reply(true, 0));
    match t.action(b"f") {
        ls::Action::Print(line) => assert_eq!(line, b"f    7       42 f\n".to_vec()),
        other => panic!("{:?}", other),
    }
    let t = t.ls(b"f", reply(true, 0));
    assert!(matches!(t.action(b"f"), ls::Action::Close(3)));
    let t = t.ls(b"f", reply(true, 0));
    assert!(matches!(t.action(b"f"), ls::Action::Done));
}

#[test]
fn listing_a_directory() {
    let mut dir = reply(true, 0);
    dir.stat.typ = InodeType::Directory;
    let t = ls::Task::Start.ls(b"/d", reply(true, 3)).ls(b"/d", dir);
    assert!(matches!(t.action(b"/d"), ls::Action::Read(3)));
    // an empty slot
    let mut entry = reply(true, 0);
    entry.bytes = vec![0; 16];
    let t = t.ls(b"/d", entry);
    assert!(matches!(t.action(b"/d"), ls::Action::Read(3)));
    let mut entry = reply(true, 0);
    entry.bytes = b"\x05\0name\0\0\0\0\0\0\0\0\0\0".to_vec();
    let t = t.ls(b"/d", entry);
    match t.action(b"/d") {
        ls::Action::Open(path) => assert_eq!(path, b"/d/name".to_vec()),
        other => panic!("{:?}", other),
    }
    let t = t.ls(b"/d", reply(true, 4)).ls(b"/d", reply(false, 0));
    match t.action(b"/d") {
        ls::Action::Complain(text, name) => {
            assert_eq!((text, name), ("ls: cannot stat ", b"name".to_vec()))
        }
        other => panic!("{:?}", other),
    }
    let t = t.ls(b"/d", reply(true, 0));
    assert!(matches!(t.action(b"/d"), ls::Action::Close(4)));
    let t = t.ls(b"/d", reply(true, 0)).ls(b"/d", reply(false, 0));
    assert!(matches!(t.action(b"/d"), ls::Action::Close(3)));
    assert_eq!(ls::type_char(InodeType::Device), b'D');
}

#[test]
fn listing_nothing() {
    let t = ls::Task::Start.ls(b"f", reply(false, 0));
    assert!(matches!(t.action(b"f"), ls::Action::Complain("ls: cannot open ", _)));
    let t = t.ls(b"f", reply(true, 0));
    assert!(matches!(t.action(b"f"), ls::Action::Done));
    let mut dir = reply(true, 0);
    dir.stat.typ = InodeType::Directory;
    let long = vec![b'x'; 120];
    let t = ls::Task::Start.ls(&long, reply(true, 3)).ls(&long, dir);
    let mut entry = reply(true, 0);
    entry.bytes = b"\x05\0longer_name\0\0\0".to_vec();
    let t = t.ls(&long, entry);
    assert!(matches!(t.action(&long), ls::Action::Panic(_)));
}

#[test]
fn counting() {
    let mut c = Counter::new();
    c.count(b"one two\nthr");
    c.count(b"ee four\n");
    assert_eq!((c.l, c.w, c.c), (2, 4, 19));
    assert_eq!(c.line(b"f"), b"2 4 19 f\n".to_vec());
    let mut c = Counter::new();
    c.count(&[0xff, b' ', 0xfe]);
    assert_eq!((c.l, c.w, c.c), (0, 2, 3));
}

#[test]
fn arguments() {
    let a = Args::new(vec![b"prog".to_vec(), b"x".to_vec(), vec![0xff], b"y".to_vec()]);
    assert_eq!((a.len(), a.args_len()), (4, 3));
    assert_eq!(a.program(), Some(&b"prog"[..]));
    assert_eq!(a.get(1), Some(&b"x"[..]));
    assert_eq!(a.get(9), None);
    assert_eq!(a.get_str(2), None);
    let mut it = a.args();
    assert_eq!(it.next(), Some(&b"x"[..]));
    assert_eq!(it.next(), Some(&[0xff][..]));
    let mut it = a.args_as_str();
    assert_eq!(it.next(), Some(&b"x"[..]));
    assert_eq!(it.next(), None);
    assert_eq!(str_from_cstr(b"ab\0c"), Some(&b"ab"[..]));
    assert_eq!(str_from_cstr(&[0xff, 0]), None);
}

#[test]
fn text() {
    assert!(is_utf8("grüße €".as_bytes()));
    assert!(!is_utf8(&[0xc0, 0x80]));
    assert!(!is_utf8(&[0xed, 0xa0, 0x80]));
    assert!(!is_utf8(&[0xe2, 0x82]));
    assert_eq!(space_at("\u{3000}x".as_bytes(), 0), 3);
    assert_eq!(space_at(b"x", 0), 0);
    let mut v = vec![];
    write_decimal(&mut v, 1203);
    assert_eq!(v, b"1203".to_vec());
    assert_eq!(parse_pid(b"+12"), Some(12));
    assert_eq!(parse_pid(b""), None);
    assert_eq!(parse_pid(b"+"), None);
    assert_eq!(parse_pid(b"1x"), None);
    assert_eq!(parse_pid(b"18446744073709551615"), Some(u64::MAX));
    assert_eq!(parse_pid(b"18446744073709551616"), None);
    assert_eq!(cat(Ok(0)), Copying::Done);
    assert_eq!(cat(Ok(5)), Copying::Write(5));
    assert_eq!(cat(Err(SysError::IoError)), Copying::Fail);
}

#[test]
fn reading_and_writing_all() {
    let mut input = Stdin::new(b"abcdef".to_vec());
    assert_eq!(input.read(2), Ok(b"ab".to_vec()));
    assert_eq!(input.read_exact(3), Ok(b"cde".to_vec()));
    assert_eq!(input.read_exact(3), Err(SysError::IoError));
    let mut out = Stdout::new();
    assert_eq!(out.write_all(b"hello"), Ok(()));
    assert_eq!(out.as_bytes(), b"hello");
    let mut err = Stderr::new();
    assert_eq!(err.write(b"x"), Ok(1));
    assert_eq!(err.as_bytes(), b"x");
}

/// Gives what it was told to, one reply after the other.
struct Script {
    replies: Vec<Result<Vec<u8>, SysError>>,
    asked: Vec<usize>,
}

impl Read for Script {
    fn read(&mut self, n: usize) -> Result<Vec<u8>, SysError> {
        self.asked.push(n);
        self.replies.remove(0)
    }
}

#[test]
fn short_reads() {
    let mut s = Script { replies: vec![Ok(b"ab".to_vec()), Ok(b"c".to_vec())], asked: vec![] };
    assert_eq!(s.read_exact(3), Ok(b"abc".to_vec()));
    assert_eq!(s.asked, vec![3, 1]);
    assert_eq!(s.read_exact(0), Ok(vec![]));
    assert_eq!(s.asked, vec![3, 1]);
    s.replies = vec![Ok(b"a".to_vec()), Err(SysError::Interrupted)];
    assert_eq!(s.read_exact(2), Err(SysError::Interrupted));
    s.replies = vec![Ok(b"a".to_vec()), Ok(vec![])];
    assert_eq!(s.read_exact(2), Err(SysError::IoError));
    assert_eq!(s.asked, vec![3, 1, 2, 1, 2, 1]);
}

/// Accepts as many bytes as it was told to, one call after the other.
struct Narrow {
    replies: Vec<Result<usize, SysError>>,
    offered: Vec<Vec<u8>>,
}

impl Write for Narrow {
    fn write(&mut self, buf: &[u8]) -> Result<usize, SysError> {
        self.offered.push(buf.to_vec());
        self.replies.remove(0)
    }
}

#[test]
fn partial_writes() {
    let mut s = Narrow { replies: vec![Ok(2), Ok(3)], offered: vec![] };
    assert_eq!(s.write_all(b"hello"), Ok(()));
    assert_eq!(s.offered, vec![b"hello".to_vec(), b"llo".to_vec()]);
    assert_eq!(s.write_all(b""), Ok(()));
    assert_eq!(s.offered.len(), 2);
    s.replies = vec![Ok(1), Err(SysError::BrokenPipe)];
    assert_eq!(s.write_all(b"xyz"), Err(SysError::BrokenPipe));
    assert_eq!(s.offered[2..], [b"xyz".to_vec(), b"yz".to_vec()]);
}

#[test]
fn calls_of_programs() {
    assert_eq!(calls::check(5), Ok(5));
    assert_eq!(calls::check((-32i64) as u64), Err(SysError::BrokenPipe));
    assert_eq!(calls::check_unit(0), Ok(()));
    assert_eq!(calls::open(3), Ok(Fd(3)));
    assert_eq!(calls::pipe(0, (3, 4)), Ok((Fd(3), Fd(4))));
    assert_eq!(calls::validate_path(&[b'a'; 128]), Err(SysError::NameTooLong));
    assert!(calls::validate_path(b"a\0b").is_err());
    assert_eq!(calls::validate_path(b"ab").unwrap().len(), 128);
    let p = calls::exec(b"/ls", &vec![b"ls".to_vec(), b"-l".to_vec()]).unwrap();
    assert_eq!(p.buf, b"ls\0-l\0".to_vec());
    assert_eq!(p.starts, vec![0, 3]);
    let r = raw::read(3, 0x1000, 16);
    assert_eq!((r.a7, r.a0, r.a1, r.a2), (5, 3, 0x1000, 16));
}
