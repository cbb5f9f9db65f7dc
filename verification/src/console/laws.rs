//! What typing, reading and writing at the console mean for those who do it.
use vstd::prelude::*;
use crate::abi::SysError;
use crate::console::{
    ConsoleState,
    Effect,
    CHUNK,
    CONSOLE_INPUT,
    CTRL_C,
    CTRL_D,
    CTRL_H,
    CTRL_P,
    CTRL_U,
    DELETE,
    INPUT_BUF_SIZE,
    NEWLINE,
    RETURN,
};
use crate::file::Ioctl;
use crate::pipe::Progress;
use crate::proc::{Channel, Pid};
use crate::riscv::PGSIZE;
use crate::vm::bytes::law_copy_from_bytes;
use crate::vm::usermem::UPAGES;
use crate::vm::UserMem;

verus! {

/// One of the next bytes from `from` on, but before `to`, cannot be read.
#[verifier::opaque]
pub open spec fn unreadable(m: UserMem, from: int, to: int) -> bool {
    exists|a: int| from <= a < to && a < from + CHUNK && !#[trigger] m.can_read(a)
}

/// What is written is shown: when writing returns `k`, what is to be shown has grown by exactly the
/// bytes of the process from `src + n` up to `src + k`, in order, and nothing else has changed. All
/// `len` bytes are shown, unless one of the next ones cannot be read.
pub proof fn law_write_is_shown(s: ConsoleState, m: UserMem, size: int, src: int, len: int, n: int)
    requires
        m.whole(),
        0 <= src,
        0 <= n <= len <= u64::MAX,
        s.write(m, size, src, len, n) is Some,
    ensures
        ({
            let (t, m1, k) = s.write(m, size, src, len, n)->0;
            &&& n <= k <= len
            &&& t.out.len() == s.out.len() + (k - n)
            &&& t.out.take(s.out.len() as int) == s.out
            &&& m1.shows(src + n, t.out.skip(s.out.len() as int))
            &&& m.same_bytes(m1)
            &&& m1.whole()
            &&& t == (ConsoleState { out: t.out, ..s })
            &&& k < len ==> unreadable(m1, src + k, src + len)
        }),
    decreases len - n,
{
    if n >= len {
        assert(s.out.take(s.out.len() as int) =~= s.out);
        assert(m.same_bytes(m));
    } else {
        let chunk = if len - n < CHUNK {
            len - n
        } else {
            CHUNK as int
        };
        law_copy_from_bytes(m, size, src + n, chunk, seq![]);
        match m.copy_from(size, src + n, chunk, seq![])->0 {
            (m1, Ok(bytes)) => {
                assert(bytes.skip(0) =~= bytes);
                let u = ConsoleState { out: s.out + bytes, ..s };
                law_write_is_shown(u, m1, size, src, len, n + chunk);
                let (t, m2, k) = s.write(m, size, src, len, n)->0;
                assert((t, m2, k) == u.write(m1, size, src, len, n + chunk)->0);
                m.lemma_same_trans(m1, m2);
                m1.lemma_same_shows(m2, src + n, bytes);
                let rest = t.out.skip(u.out.len() as int);
                m2.lemma_shows_both(src + n, bytes, rest);
                assert(t.out.take(s.out.len() as int) =~= t.out.take(u.out.len() as int).take(
                    s.out.len() as int,
                ));
                assert(u.out.take(s.out.len() as int) =~= s.out);
                assert(t.out.skip(s.out.len() as int) =~= bytes + rest) by {
                    assert(forall|j: int|
                        0 <= j < bytes.len() ==> t.out.take(u.out.len() as int)[s.out.len() + j]
                            == bytes[j]);
                }
                assert(src + n + bytes.len() == src + (n + chunk));
            },
            (m1, Err(_)) => {
                assert(s.out.take(s.out.len() as int) =~= s.out);
                assert(s.write(m, size, src, len, n) == Some((s, m1, n as u64)));
                let a = choose|a: int| src + n <= a < src + n + chunk && !#[trigger] m1.can_read(a);
                assert(!m1.can_read(a));
                assert(unreadable(m1, src + n, src + len)) by {
                    reveal(unreadable);
                    assert(src + n <= a < src + len && a < src + n + CHUNK);
                }
            },
        }
    }
}

/// Where every byte can be read all of them are shown.
pub proof fn law_write_is_complete(s: ConsoleState, m: UserMem, size: int, src: int, len: int)
    requires
        m.whole(),
        0 <= src,
        0 <= len <= u64::MAX,
        s.write(m, size, src, len, 0) is Some,
        forall|a: int| src <= a < src + len ==> #[trigger] m.can_read(a),
    ensures
        ({
            let (t, m1, k) = s.write(m, size, src, len, 0)->0;
            &&& k == len
            &&& m1 == m
            &&& t.out.len() == s.out.len() + len
            &&& m.shows(src, t.out.skip(s.out.len() as int))
        }),
{
    law_write_is_shown(s, m, size, src, len, 0);
    lemma_write_keeps(s, m, size, src, len, 0);
    let (t, m1, k) = s.write(m, size, src, len, 0)->0;
    if k < len {
        reveal(unreadable);
        let a = choose|a: int|
            src + k <= a < src + len && a < src + k + CHUNK && !#[trigger] m1.can_read(a);
        assert(m.can_read(a));
    }
}

proof fn lemma_write_keeps(s: ConsoleState, m: UserMem, size: int, src: int, len: int, n: int)
    requires
        m.whole(),
        0 <= src,
        0 <= n <= len,
        s.write(m, size, src, len, n) is Some,
        forall|a: int| src <= a < src + len ==> #[trigger] m.can_read(a),
    ensures
        (s.write(m, size, src, len, n)->0).1 == m,
    decreases len - n,
{
    if n < len {
        let chunk = if len - n < CHUNK {
            len - n
        } else {
            CHUNK as int
        };
        crate::vm::bytes::law_copy_from_succeeds(m, size, src + n, chunk, seq![]);
        let bytes = (m.copy_from(size, src + n, chunk, seq![])->0).1->Ok_0;
        lemma_write_keeps(
            ConsoleState { out: s.out + bytes, ..s },
            m,
            size,
            src,
            len,
            n + chunk,
        );
    }
}

/// No byte of `bytes` ends a line or the input.
pub open spec fn plain_input(bytes: Seq<u8>) -> bool {
    forall|i: int| 0 <= i < bytes.len() ==> (#[trigger] bytes[i]) != NEWLINE && bytes[i] != CTRL_D
}

/// What a read that starts after `done` bytes has taken from the input: `got` bytes, which are in the
/// memory of the process now, and `extra` bytes that it does not get.
#[verifier::opaque]
pub open spec fn read_took(
    s: ConsoleState,
    m: UserMem,
    t: ConsoleState,
    m1: UserMem,
    at: int,
    got: int,
    extra: int,
) -> bool {
    &&& 0 <= got <= s.ready.len()
    &&& 0 <= extra <= 1
    &&& got + extra <= s.ready.len()
    &&& t == (ConsoleState { ready: s.ready.skip(got + extra), ..s })
    &&& m1.shows(at, s.ready.take(got))
    &&& m.only_within(m1, at, at + got)
    &&& m1.whole()
}

/// The first `got` bytes of the input may be taken by one read: in raw mode at most one, else none of
/// them ends the input, and only the last may end a line.
pub open spec fn one_line(s: ConsoleState, got: int) -> bool {
    if s.raw {
        got <= 1
    } else {
        forall|i: int|
            0 <= i < got ==> (#[trigger] s.ready[i]) != CTRL_D && (s.ready[i] == NEWLINE ==> i == got
                - 1)
    }
}

/// What a read may come to.
pub open spec fn read_came_to(
    s: ConsoleState,
    m: UserMem,
    t: ConsoleState,
    m1: UserMem,
    p: Progress,
    dst: int,
    target: int,
    done: int,
    killed: bool,
) -> bool {
    let at = dst + done;
    let all = s.ready.len() as int;
    match p {
        Progress::Done(Ok(k)) => {
            let got = k - done;
            &&& one_line(s, got)
            &&& k <= target
            &&& {
                // all that was asked for
                ||| k == target && read_took(s, m, t, m1, at, got, 0)
                // the end of a line, or one byte in raw mode
                ||| got > 0 && (s.raw || s.ready[got - 1] == NEWLINE) && read_took(
                    s,
                    m,
                    t,
                    m1,
                    at,
                    got,
                    0,
                )
                // the end of the input, which is left for the next read if there was something
                ||| !s.raw && got < all && s.ready[got] == CTRL_D && read_took(
                    s,
                    m,
                    t,
                    m1,
                    at,
                    got,
                    if k > 0 {
                        0
                    } else {
                        1
                    },
                )
                // the memory cannot be written
                ||| !m1.can_write(dst + k) && read_took(s, m, t, m1, at, got, 1)
            }
        },
        Progress::Done(Err(e)) => {
            &&& e == SysError::Interrupted && killed
            &&& read_took(s, m, t, m1, at, all, 0)
            &&& plain_input(s.ready)
        },
        Progress::Sleep(k, c) => {
            &&& !killed
            &&& c == Channel::Buffer(CONSOLE_INPUT)
            &&& k - done == all && k < target
            &&& read_took(s, m, t, m1, at, all, 0)
            &&& plain_input(s.ready)
        },
    }
}

/// A read takes input in order from the front, and puts it where it was asked to, changing no other
/// byte. In cooked mode it takes what there is up to the end of a line, the end of the input or as
/// many bytes as were asked for, and sleeps if that does not come; in raw mode it takes one byte.
pub proof fn law_read_takes_input(
    s: ConsoleState,
    m: UserMem,
    size: int,
    dst: int,
    target: int,
    done: int,
    killed: bool,
)
    requires
        m.whole(),
        0 <= dst,
        0 <= done <= target <= u64::MAX,
        s.read(m, size, dst, target, done, killed) is Some,
    ensures
        ({
            let (t, m1, p) = s.read(m, size, dst, target, done, killed)->0;
            read_came_to(s, m, t, m1, p, dst, target, done, killed)
        }),
    decreases target - done,
{
    let (t, m1, p) = s.read(m, size, dst, target, done, killed)->0;
    let at = dst + done;
    lemma_took_nothing(s, m, at);
    if done < target && s.ready.len() > 0 {
        let c = s.ready[0];
        let rest = ConsoleState { ready: s.ready.skip(1), ..s };
        if !s.raw && c == CTRL_D {
        } else {
            lemma_put_one(m, size, at, c);
            let (m2, put) = m.put_byte(size, at, c)->0;
            if put is Ok {
                lemma_took_one(s, m, m2, at);
                if c == NEWLINE || s.raw {
                } else {
                    law_read_takes_input(rest, m2, size, dst, target, done + 1, killed);
                    assert((t, m1, p) == rest.read(m2, size, dst, target, done + 1, killed)->0);
                    lemma_one_more(s, m, m2, t, m1, p, dst, target, done, killed);
                }
            } else {
                assert(t == rest && m1 == m2);
                lemma_lost_one(s, m, m2, at);
            }
        }
    }
}

proof fn lemma_took_nothing(s: ConsoleState, m: UserMem, at: int)
    requires
        m.whole(),
    ensures
        read_took(s, m, s, m, at, 0, 0),
        s.ready.len() > 0 ==> read_took(
            s,
            m,
            ConsoleState { ready: s.ready.skip(1), ..s },
            m,
            at,
            0,
            1,
        ),
{
    reveal(read_took);
    assert(s.ready.skip(0) =~= s.ready);
    assert(m.same_bytes(m));
    m.lemma_same_within(m, at, at);
}

proof fn lemma_took_one(s: ConsoleState, m: UserMem, m2: UserMem, at: int)
    requires
        s.ready.len() > 0,
        m2.whole(),
        m2.shows(at, seq![s.ready[0]]),
        m.only_within(m2, at, at + 1),
    ensures
        read_took(s, m, ConsoleState { ready: s.ready.skip(1), ..s }, m2, at, 1, 0),
{
    reveal(read_took);
    assert(s.ready.take(1) =~= seq![s.ready[0]]);
}

proof fn lemma_lost_one(s: ConsoleState, m: UserMem, m2: UserMem, at: int)
    requires
        s.ready.len() > 0,
        m2.whole(),
        m.only_within(m2, at, at),
    ensures
        read_took(s, m, ConsoleState { ready: s.ready.skip(1), ..s }, m2, at, 0, 1),
{
    reveal(read_took);
}

/// Writing one byte.
proof fn lemma_put_one(m: UserMem, size: int, at: int, c: u8)
    requires
        m.whole(),
        0 <= at,
        m.put_byte(size, at, c) is Some,
    ensures
        ({
            let (m1, r) = m.put_byte(size, at, c)->0;
            &&& m1.whole()
            &&& r is Ok ==> m1.shows(at, seq![c]) && m.only_within(m1, at, at + 1) && at / (
            PGSIZE as int) < UPAGES
            &&& r is Err ==> m.only_within(m1, at, at) && !m1.can_write(at)
        }),
{
    m.lemma_put_byte(size, at, c);
    reveal(UserMem::put_byte);
    crate::vm::bytes::law_copy_to_bytes(m, size, at, seq![c]);
    let (m1, r) = m.put_byte(size, at, c)->0;
    if r is Err {
        m.lemma_same_within(m1, at, at);
    }
}

/// What the first byte and the rest of a read make together.
proof fn lemma_took_more(
    s: ConsoleState,
    m: UserMem,
    m2: UserMem,
    t: ConsoleState,
    m1: UserMem,
    at: int,
    got: int,
    extra: int,
)
    requires
        0 <= at,
        s.ready.len() > 0,
        m2.shows(at, seq![s.ready[0]]),
        m.only_within(m2, at, at + 1),
        at / (PGSIZE as int) < UPAGES,
        read_took(ConsoleState { ready: s.ready.skip(1), ..s }, m2, t, m1, at + 1, got, extra),
    ensures
        read_took(s, m, t, m1, at, got + 1, extra),
{
    reveal(read_took);
    let rest = ConsoleState { ready: s.ready.skip(1), ..s };
    let c = s.ready[0];
    assert(rest.ready.skip(got + extra) =~= s.ready.skip(got + 1 + extra));
    m2.lemma_still_shows(m1, at, seq![c], at + 1, at + 1 + got);
    m1.lemma_shows_both(at, seq![c], rest.ready.take(got));
    assert(s.ready.take(got + 1) =~= seq![c] + rest.ready.take(got));
    assert forall|a: int|
        0 <= a && !(at <= a < at + got + 1) && a / (PGSIZE as int) < UPAGES implies #[trigger] m.byte_kept(
        m1,
        a,
    ) by {
        assert(m.byte_kept(m2, a));
        assert(m2.byte_kept(m1, a));
    }
}

proof fn lemma_one_more(
    s: ConsoleState,
    m: UserMem,
    m2: UserMem,
    t: ConsoleState,
    m1: UserMem,
    p: Progress,
    dst: int,
    target: int,
    done: int,
    killed: bool,
)
    requires
        0 <= dst + done,
        0 <= done,
        s.ready.len() > 0,
        !s.raw,
        s.ready[0] != NEWLINE,
        s.ready[0] != CTRL_D,
        m2.shows(dst + done, seq![s.ready[0]]),
        m.only_within(m2, dst + done, dst + done + 1),
        (dst + done) / (PGSIZE as int) < UPAGES,
        read_came_to(
            ConsoleState { ready: s.ready.skip(1), ..s },
            m2,
            t,
            m1,
            p,
            dst,
            target,
            done + 1,
            killed,
        ),
    ensures
        read_came_to(s, m, t, m1, p, dst, target, done, killed),
{
    let rest = ConsoleState { ready: s.ready.skip(1), ..s };
    let at = dst + done;
    assert(dst + (done + 1) == at + 1);
    assert forall|i: int| 0 <= i < rest.ready.len() implies #[trigger] rest.ready[i] == s.ready[i + 1] by {}
    assert forall|got: int, extra: int| #[trigger]
        read_took(rest, m2, t, m1, at + 1, got, extra) implies read_took(
        s,
        m,
        t,
        m1,
        at,
        got + 1,
        extra,
    ) by {
        lemma_took_more(s, m, m2, t, m1, at, got, extra);
    }
    assert(plain_input(rest.ready) ==> plain_input(s.ready)) by {
        if plain_input(rest.ready) {
            assert forall|i: int| 0 <= i < s.ready.len() implies (#[trigger] s.ready[i]) != NEWLINE
                && s.ready[i] != CTRL_D by {
                if i > 0 {
                    assert(rest.ready[i - 1] == s.ready[i]);
                }
            }
        }
    }
    let all = rest.ready.len() as int;
    assert(s.ready.len() == all + 1);
    if read_took(rest, m2, t, m1, at + 1, all, 0) {
        assert(read_took(s, m, t, m1, at, all + 1, 0));
    }
    if let Progress::Done(Ok(k)) = p {
        let got = k - done - 1;
        assert(0 <= got <= rest.ready.len()) by {
            reveal(read_took);
        }
        assert(one_line(s, got + 1)) by {
            assert forall|i: int| 0 <= i < got + 1 implies (#[trigger] s.ready[i]) != CTRL_D && (
            s.ready[i] == NEWLINE ==> i == got) by {
                if i > 0 {
                    assert(rest.ready[i - 1] == s.ready[i]);
                }
            }
        }
        if got > 0 {
            assert(rest.ready[got - 1] == s.ready[got]);
        }
        if 0 <= got < rest.ready.len() {
            assert(rest.ready[got] == s.ready[got + 1]);
        }
    }
}

/// A character that stands for itself in a line.
pub open spec fn ordinary(c: u8) -> bool {
    c != 0 && c != RETURN && c != NEWLINE && c != DELETE && c != CTRL_C && c != CTRL_D && c != CTRL_H
        && c != CTRL_P && c != CTRL_U
}

/// The console after the characters `w` were typed.
pub open spec fn typed(s: ConsoleState, w: Seq<u8>) -> ConsoleState
    decreases w.len(),
{
    if w.len() == 0 {
        s
    } else {
        typed(s.interrupt(w[0]).0, w.skip(1))
    }
}

/// A line that is typed in cooked mode is shown as it is typed, and can be read when it is ended,
/// with a newline behind it, and not before.
pub proof fn law_line_is_typed(s: ConsoleState, w: Seq<u8>, end: u8)
    requires
        !s.raw,
        forall|i: int| 0 <= i < w.len() ==> ordinary(#[trigger] w[i]),
        end == NEWLINE || end == RETURN,
        s.ready.len() + s.line.len() + w.len() + 1 < INPUT_BUF_SIZE,
    ensures
        typed(s, w) == (ConsoleState { line: s.line + w, out: s.out + w, ..s }),
        typed(s, w).interrupt(end) == (
            ConsoleState {
                ready: s.ready + s.line + w + seq![NEWLINE],
                line: Seq::empty(),
                out: s.out + w + seq![NEWLINE],
                ..s
            },
            Effect::Wake,
        ),
    decreases w.len(),
{
    if w.len() > 0 {
        let c = w[0];
        assert(ordinary(c));
        let t = s.interrupt(c).0;
        assert(t == (ConsoleState { line: s.line.push(c), out: s.out.push(c), ..s }));
        let rest = w.skip(1);
        assert forall|i: int| 0 <= i < rest.len() implies ordinary(#[trigger] rest[i]) by {
            assert(rest[i] == w[i + 1]);
        }
        law_line_is_typed(t, rest, end);
        assert(s.line.push(c) + rest =~= s.line + w);
        assert(s.out.push(c) + rest =~= s.out + w);
    } else {
        assert(s.line + w =~= s.line);
        assert(s.out + w =~= s.out);
    }
    let u = typed(s, w);
    assert(u.ready + u.line.push(NEWLINE) =~= s.ready + s.line + w + seq![NEWLINE]);
    assert(u.out.push(NEWLINE) =~= s.out + w + seq![NEWLINE]);
}

/// The end of the input, Ctrl-D, makes what was typed readable as a newline does.
pub proof fn law_end_of_input(s: ConsoleState)
    requires
        !s.raw,
        s.ready.len() + s.line.len() < INPUT_BUF_SIZE,
    ensures
        s.interrupt(CTRL_D).1 == Effect::Wake,
        s.interrupt(CTRL_D).0.line.len() == 0,
        s.interrupt(CTRL_D).0.ready == s.ready + s.line + seq![CTRL_D],
{
    assert(s.ready + s.line.push(CTRL_D) =~= s.ready + s.line + seq![CTRL_D]);
}

/// In raw mode every character can be read at once, and none is shown.
pub proof fn law_raw_input(s: ConsoleState, c: u8)
    requires
        s.raw,
        c != 0,
        s.ready.len() + s.line.len() < INPUT_BUF_SIZE,
    ensures
        s.interrupt(c) == (
            ConsoleState { ready: s.ready + s.line + seq![c], line: Seq::empty(), ..s },
            Effect::Wake,
        ),
{
    assert(s.ready + s.line.push(c) =~= s.ready + s.line + seq![c]);
}

/// The console never holds more than it has room for, and drops what does not fit: input that is
/// there is never overwritten.
pub proof fn law_full_console(s: ConsoleState, c: u8)
    requires
        s.ready.len() + s.line.len() <= INPUT_BUF_SIZE,
    ensures
        s.interrupt(c).0.ready.len() + s.interrupt(c).0.line.len() <= INPUT_BUF_SIZE,
        s.ready.len() + s.line.len() == INPUT_BUF_SIZE && ordinary(c) ==> s.interrupt(c) == (
            s,
            Effect::Nothing,
        ),
{
    crate::console::law_input_only_appends(s, c);
    lemma_kill_shrinks(s);
}

proof fn lemma_kill_shrinks(s: ConsoleState)
    ensures
        s.line_killed().line.len() <= s.line.len(),
        s.line_killed().ready == s.ready,
    decreases s.line.len(),
{
    if s.line.len() > 0 && s.line.last() != NEWLINE {
        lemma_kill_shrinks(s.erased());
    }
}

/// Ctrl-C kills the process that was put into the foreground, and no other; it leaves the input
/// alone. Ctrl-P lists the processes.
pub proof fn law_foreground(s: ConsoleState, pid: u64)
    requires
        !s.raw,
    ensures
        s.ioctl(Ioctl::CONSOLE_SET_FG_PID, pid).1 == Ok::<u64, SysError>(0),
        s.ioctl(Ioctl::CONSOLE_SET_FG_PID, pid).0.interrupt(CTRL_C).1 == (if pid == 0 {
            Effect::Nothing
        } else {
            Effect::Kill(Pid(pid))
        }),
        s.interrupt(CTRL_C).0 == s,
        s.interrupt(CTRL_P) == (s, Effect::Dump),
{
}

/// Setting the mode sets it and nothing that can be read or is to be shown.
pub proof fn law_mode(s: ConsoleState, arg: u64)
    ensures
        ({
            let (t, r) = s.ioctl(Ioctl::CONSOLE_SET_RAW, arg);
            &&& r == Ok::<u64, SysError>(0)
            &&& t.raw == (arg == 1)
            &&& t.ready == s.ready && t.out == s.out && t.foreground == s.foreground
        }),
{
}

} // verus!
