//! Listing a directory: what is asked for next, and what comes of the reply.
use vstd::prelude::*;
use vstd::utf8::valid_utf8;
use crate::fs::inode::{InodeType, Stat};
use crate::param::MAXPATH;
use crate::user::args::str_from_cstr;
use crate::user::text::{decimal, until_zero, write_decimal};

verus! {

/// The size of an entry of a directory: a number of two bytes and a name
pub const ENTRY_SIZE: usize = 16;

/// The letter for a type.
pub open spec fn letter(t: InodeType) -> u8 {
    match t {
        InodeType::File => 0x66,
        InodeType::Directory => 0x64,
        InodeType::Device => 0x44,
        InodeType::Free => 0x3f,
    }
}

/// The letter for a type.
pub fn type_char(t: InodeType) -> (r: u8)
    ensures
        r == letter(t),
{
    match t {
        InodeType::File => 0x66,
        InodeType::Directory => 0x64,
        InodeType::Device => 0x44,
        InodeType::Free => 0x3f,
    }
}

/// A number in decimal digits, with spaces before it up to `width`.
pub open spec fn padded(n: nat, width: int) -> Seq<u8> {
    let d = decimal(n);
    Seq::new(
        (if width > d.len() {
            width - d.len()
        } else {
            0
        }) as nat,
        |i: int| 0x20u8,
    ) + d
}

/// Appends a number in decimal digits, with spaces before it up to `width`.
fn write_padded(out: &mut Vec<u8>, n: u64, width: usize)
    ensures
        final(out)@ == old(out)@ + padded(n as nat, width as int),
{
    let mut d: Vec<u8> = Vec::new();
    write_decimal(&mut d, n);
    assert(d@ =~= decimal(n as nat));
    let mut i: usize = d.len();
    let ghost start = i as int;
    while i < width
        invariant
            d@.len() == start,
            start <= i,
            i <= width || i == start,
            out@ == old(out)@ + Seq::new((i - start) as nat, |i: int| 0x20u8),
        decreases width - i,
    {
        out.push(0x20);
        i += 1;
        assert(out@ =~= old(out)@ + Seq::new((i - start) as nat, |i: int| 0x20u8));
    }
    out.extend_from_slice(d.as_slice());
    assert(out@ =~= old(out)@ + padded(n as nat, width as int));
}

/// The line for a file.
pub open spec fn shown(stat: Stat, name: Seq<u8>) -> Seq<u8> {
    seq![letter(stat.typ), 0x20] + padded(stat.ino as nat, 4) + seq![0x20u8] + padded(
        stat.size as nat,
        8,
    ) + seq![0x20u8] + name + seq![0x0au8]
}

/// The line for a file.
pub fn line(stat: &Stat, name: &[u8]) -> (r: Vec<u8>)
    ensures
        r@ == shown(*stat, name@),
{
    let mut out: Vec<u8> = Vec::new();
    out.push(type_char(stat.typ));
    out.push(0x20);
    write_padded(&mut out, stat.ino as u64, 4);
    out.push(0x20);
    write_padded(&mut out, stat.size, 8);
    out.push(0x20);
    out.extend_from_slice(name);
    out.push(0x0a);
    assert(out@ =~= shown(*stat, name@));
    out
}

/// The path of `name` in the directory `path`.
pub open spec fn joined(path: Seq<u8>, name: Seq<u8>) -> Seq<u8> {
    if path.len() > 0 && path.last() == 0x2f {
        path + name
    } else {
        path.push(0x2f) + name
    }
}

/// The path of `name` in the directory `path`.
fn join(path: &[u8], name: &[u8]) -> (r: Vec<u8>)
    ensures
        r@ == joined(path@, name@),
{
    let mut out: Vec<u8> = Vec::new();
    out.extend_from_slice(path);
    if path.len() == 0 || path[path.len() - 1] != 0x2f {
        out.push(0x2f);
    }
    out.extend_from_slice(name);
    assert(out@ =~= joined(path@, name@));
    out
}

/// What is done next.
pub enum Act {
    /// Opens a file for reading.
    Open(Seq<u8>),
    Stat(u64),
    /// Reads an entry of a directory.
    Read(u64),
    Close(u64),
    Print(Seq<u8>),
    /// Says what is wrong: a text and what it is about
    Complain(Seq<char>, Seq<u8>),
    Panic(Seq<char>),
    Done,
}

/// How far the listing of a path is. The first number is the descriptor for the path.
pub enum Job {
    Start,
    NoOpen,
    Stat(u64),
    NoStat(u64),
    Show(u64, Stat),
    Reading(u64),
    /// An entry of this name is looked at, at this path.
    EntryOpen(u64, Seq<u8>, Seq<u8>),
    EntryNoOpen(u64, Seq<u8>),
    EntryStat(u64, Seq<u8>, u64),
    EntryNoStat(u64, Seq<u8>, u64),
    EntryShow(u64, Seq<u8>, u64, Stat),
    EntryClose(u64, u64),
    Closing(u64),
    TooLong,
    Malformed,
    Done,
}

/// What came of a call: whether it succeeded, and what it gave.
#[derive(Debug)]
pub struct Reply {
    pub ok: bool,
    /// The descriptor of a file that was opened
    pub fd: u64,
    pub stat: Stat,
    /// What was read
    pub bytes: Vec<u8>,
}

/// How it goes on with an entry of the directory `path`.
pub open spec fn entry_job(fd: u64, path: Seq<u8>, entry: Seq<u8>) -> Job {
    let name = until_zero(entry.skip(2));
    let full = joined(path, name);
    if entry[0] == 0 && entry[1] == 0 {
        // an empty slot
        Job::Reading(fd)
    } else if full.len() > MAXPATH {
        Job::TooLong
    } else if !valid_utf8(name) || !valid_utf8(until_zero(full)) {
        Job::Malformed
    } else {
        Job::EntryOpen(fd, name, until_zero(full))
    }
}

impl Job {
    /// The next thing to do for `path`.
    pub open spec fn act(self, path: Seq<u8>) -> Act {
        match self {
            Job::Start => Act::Open(path),
            Job::NoOpen => Act::Complain("ls: cannot open "@, path),
            Job::Stat(fd) => Act::Stat(fd),
            Job::NoStat(_) => Act::Complain("ls: cannot stat "@, path),
            Job::Show(_, stat) => Act::Print(shown(stat, path)),
            Job::Reading(fd) => Act::Read(fd),
            Job::EntryOpen(_, _, full) => Act::Open(full),
            Job::EntryNoOpen(_, name) => Act::Complain("ls: cannot open "@, name),
            Job::EntryStat(_, _, f) => Act::Stat(f),
            Job::EntryNoStat(_, name, _) => Act::Complain("ls: cannot stat "@, name),
            Job::EntryShow(_, name, _, stat) => Act::Print(shown(stat, name)),
            Job::EntryClose(_, f) => Act::Close(f),
            Job::Closing(fd) => Act::Close(fd),
            Job::TooLong => Act::Panic("index out of range"@),
            Job::Malformed => Act::Panic("ls: malformed path"@),
            Job::Done => Act::Done,
        }
    }

    /// How it goes on after the reply.
    pub open spec fn next(self, path: Seq<u8>, reply: Reply) -> Job {
        match self {
            Job::Start => if reply.ok {
                Job::Stat(reply.fd)
            } else {
                Job::NoOpen
            },
            Job::Stat(fd) => if !reply.ok {
                Job::NoStat(fd)
            } else {
                match reply.stat.typ {
                    InodeType::Free => Job::Closing(fd),
                    InodeType::Directory => Job::Reading(fd),
                    _ => Job::Show(fd, reply.stat),
                }
            },
            Job::NoStat(fd) => Job::Closing(fd),
            Job::Show(fd, _) => Job::Closing(fd),
            Job::Reading(fd) => if reply.ok && reply.bytes@.len() == ENTRY_SIZE {
                entry_job(fd, path, reply.bytes@)
            } else {
                Job::Closing(fd)
            },
            Job::EntryOpen(fd, name, _) => if reply.ok {
                Job::EntryStat(fd, name, reply.fd)
            } else {
                Job::EntryNoOpen(fd, name)
            },
            Job::EntryNoOpen(fd, _) => Job::Reading(fd),
            Job::EntryStat(fd, name, f) => if reply.ok {
                Job::EntryShow(fd, name, f, reply.stat)
            } else {
                Job::EntryNoStat(fd, name, f)
            },
            Job::EntryNoStat(fd, _, f) => Job::EntryClose(fd, f),
            Job::EntryShow(fd, _, f, _) => Job::EntryClose(fd, f),
            Job::EntryClose(fd, _) => Job::Reading(fd),
            Job::NoOpen | Job::Closing(_) | Job::Done => Job::Done,
            Job::TooLong | Job::Malformed => self,
        }
    }

    /// The descriptors that are open.
    pub open spec fn open(self) -> Seq<u64> {
        match self {
            Job::Start | Job::NoOpen | Job::TooLong | Job::Malformed | Job::Done => seq![],
            Job::Stat(fd) => seq![fd],
            Job::NoStat(fd) => seq![fd],
            Job::Show(fd, _) => seq![fd],
            Job::Reading(fd) => seq![fd],
            Job::EntryOpen(fd, _, _) => seq![fd],
            Job::EntryNoOpen(fd, _) => seq![fd],
            Job::EntryStat(fd, _, f) => seq![fd, f],
            Job::EntryNoStat(fd, _, f) => seq![fd, f],
            Job::EntryShow(fd, _, f, _) => seq![fd, f],
            Job::EntryClose(fd, f) => seq![fd, f],
            Job::Closing(fd) => seq![fd],
        }
    }
}

/// What is done next.
#[derive(Debug)]
pub enum Action {
    Open(Vec<u8>),
    Stat(u64),
    Read(u64),
    Close(u64),
    Print(Vec<u8>),
    Complain(&'static str, Vec<u8>),
    Panic(&'static str),
    Done,
}

impl View for Action {
    type V = Act;

    open spec fn view(&self) -> Act {
        match *self {
            Action::Open(path) => Act::Open(path@),
            Action::Stat(fd) => Act::Stat(fd),
            Action::Read(fd) => Act::Read(fd),
            Action::Close(fd) => Act::Close(fd),
            Action::Print(line) => Act::Print(line@),
            Action::Complain(text, subject) => Act::Complain(text@, subject@),
            Action::Panic(text) => Act::Panic(text@),
            Action::Done => Act::Done,
        }
    }
}

/// How far the listing of a path is.
#[derive(Debug)]
pub enum Task {
    Start,
    NoOpen,
    Stat(u64),
    NoStat(u64),
    Show(u64, Stat),
    Reading(u64),
    EntryOpen(u64, Vec<u8>, Vec<u8>),
    EntryNoOpen(u64, Vec<u8>),
    EntryStat(u64, Vec<u8>, u64),
    EntryNoStat(u64, Vec<u8>, u64),
    EntryShow(u64, Vec<u8>, u64, Stat),
    EntryClose(u64, u64),
    Closing(u64),
    TooLong,
    Malformed,
    Done,
}

impl View for Task {
    type V = Job;

    open spec fn view(&self) -> Job {
        match *self {
            Task::Start => Job::Start,
            Task::NoOpen => Job::NoOpen,
            Task::Stat(fd) => Job::Stat(fd),
            Task::NoStat(fd) => Job::NoStat(fd),
            Task::Show(fd, stat) => Job::Show(fd, stat),
            Task::Reading(fd) => Job::Reading(fd),
            Task::EntryOpen(fd, name, full) => Job::EntryOpen(fd, name@, full@),
            Task::EntryNoOpen(fd, name) => Job::EntryNoOpen(fd, name@),
            Task::EntryStat(fd, name, f) => Job::EntryStat(fd, name@, f),
            Task::EntryNoStat(fd, name, f) => Job::EntryNoStat(fd, name@, f),
            Task::EntryShow(fd, name, f, stat) => Job::EntryShow(fd, name@, f, stat),
            Task::EntryClose(fd, f) => Job::EntryClose(fd, f),
            Task::Closing(fd) => Job::Closing(fd),
            Task::TooLong => Job::TooLong,
            Task::Malformed => Job::Malformed,
            Task::Done => Job::Done,
        }
    }
}

/// A copy of bytes.
fn copied(s: &[u8]) -> (r: Vec<u8>)
    ensures
        r@ == s@,
{
    let mut v: Vec<u8> = Vec::new();
    v.extend_from_slice(s);
    assert(v@ =~= s@);
    v
}

impl Task {
    /// The next thing to do for `path`.
    pub fn action(&self, path: &[u8]) -> (r: Action)
        ensures
            r@ == self@.act(path@),
    {
        match self {
            Task::Start => Action::Open(copied(path)),
            Task::NoOpen => Action::Complain("ls: cannot open ", copied(path)),
            Task::Stat(fd) => Action::Stat(*fd),
            Task::NoStat(_) => Action::Complain("ls: cannot stat ", copied(path)),
            Task::Show(_, stat) => Action::Print(line(stat, path)),
            Task::Reading(fd) => Action::Read(*fd),
            Task::EntryOpen(_, _, full) => Action::Open(copied(full.as_slice())),
            Task::EntryNoOpen(_, name) => Action::Complain(
                "ls: cannot open ",
                copied(name.as_slice()),
            ),
            Task::EntryStat(_, _, f) => Action::Stat(*f),
            Task::EntryNoStat(_, name, _) => Action::Complain(
                "ls: cannot stat ",
                copied(name.as_slice()),
            ),
            Task::EntryShow(_, name, _, stat) => Action::Print(line(stat, name.as_slice())),
            Task::EntryClose(_, f) => Action::Close(*f),
            Task::Closing(fd) => Action::Close(*fd),
            Task::TooLong => Action::Panic("index out of range"),
            Task::Malformed => Action::Panic("ls: malformed path"),
            Task::Done => Action::Done,
        }
    }

    /// Goes on after the reply.
    pub fn ls(self, path: &[u8], reply: Reply) -> (r: Task)
        ensures
            r@ == self@.next(path@, reply),
    {
        match self {
            Task::Start => if reply.ok {
                Task::Stat(reply.fd)
            } else {
                Task::NoOpen
            },
            Task::Stat(fd) => if !reply.ok {
                Task::NoStat(fd)
            } else {
                match reply.stat.typ {
                    InodeType::Free => Task::Closing(fd),
                    InodeType::Directory => Task::Reading(fd),
                    _ => Task::Show(fd, reply.stat),
                }
            },
            Task::NoStat(fd) => Task::Closing(fd),
            Task::Show(fd, _) => Task::Closing(fd),
            Task::Reading(fd) => if reply.ok && reply.bytes.len() == ENTRY_SIZE {
                entry_task(fd, path, reply.bytes.as_slice())
            } else {
                Task::Closing(fd)
            },
            Task::EntryOpen(fd, name, _) => if reply.ok {
                Task::EntryStat(fd, name, reply.fd)
            } else {
                Task::EntryNoOpen(fd, name)
            },
            Task::EntryNoOpen(fd, _) => Task::Reading(fd),
            Task::EntryStat(fd, name, f) => if reply.ok {
                Task::EntryShow(fd, name, f, reply.stat)
            } else {
                Task::EntryNoStat(fd, name, f)
            },
            Task::EntryNoStat(fd, _, f) => Task::EntryClose(fd, f),
            Task::EntryShow(fd, _, f, _) => Task::EntryClose(fd, f),
            Task::EntryClose(fd, _) => Task::Reading(fd),
            Task::NoOpen | Task::Closing(_) | Task::Done => Task::Done,
            Task::TooLong => Task::TooLong,
            Task::Malformed => Task::Malformed,
        }
    }
}

/// Goes on with an entry of the directory `path`.
fn entry_task(fd: u64, path: &[u8], entry: &[u8]) -> (r: Task)
    requires
        entry@.len() == ENTRY_SIZE,
    ensures
        r@ == entry_job(fd, path@, entry@),
{
    if entry[0] == 0 && entry[1] == 0 {
        // empty slot
        return Task::Reading(fd);
    }
    let rest = vstd::slice::slice_subrange(entry, 2, ENTRY_SIZE);
    assert(rest@ =~= entry@.skip(2));
    let n = crate::user::text::zero_at(rest);
    let bare = vstd::slice::slice_subrange(rest, 0, n);
    assert(bare@ =~= until_zero(entry@.skip(2)));
    let full = join(path, bare);
    if full.len() > MAXPATH {
        return Task::TooLong;
    }
    let name = match str_from_cstr(rest) {
        Some(name) => name,
        None => {
            return Task::Malformed;
        },
    };
    match str_from_cstr(full.as_slice()) {
        Some(full) => Task::EntryOpen(fd, copied(name), copied(full)),
        None => Task::Malformed,
    }
}

/// What is opened is closed again: each step of the listing opens or closes what it asks for and
/// nothing else, and nothing is open at the end.
pub proof fn law_listing_closes(s: Job, path: Seq<u8>, reply: Reply)
    requires
        !(s.next(path, reply) is TooLong),
        !(s.next(path, reply) is Malformed),
    ensures
        s.next(path, reply).open() == (match s.act(path) {
            Act::Open(_) => if reply.ok {
                s.open().push(reply.fd)
            } else {
                s.open()
            },
            Act::Close(fd) => s.open().drop_last(),
            _ => s.open(),
        }),
        s.act(path) matches Act::Close(fd) ==> s.open().len() > 0 && s.open().last() == fd,
        s is Done ==> s.open().len() == 0,
{
    assert(s.next(path, reply).open() =~= (match s.act(path) {
        Act::Open(_) => if reply.ok {
            s.open().push(reply.fd)
        } else {
            s.open()
        },
        Act::Close(fd) => s.open().drop_last(),
        _ => s.open(),
    }));
}

} // verus!
