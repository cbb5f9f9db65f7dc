//! The console: input line by line, and output.
use vstd::prelude::*;
use crate::abi::SysError;
use crate::file::Ioctl;
use crate::kalloc::Kmem;
use crate::pipe::Progress;
use crate::proc::{copy_from_user, copy_to_user, Channel, Pid, ProcData};
use crate::vm::uvm::kmem_ok;
use crate::vm::{UserMem, VA};

pub mod laws;

verus! {

/// How many bytes of input the console holds
pub const INPUT_BUF_SIZE: usize = 128;

/// How many bytes `write` takes from the user at a time
pub const CHUNK: usize = 32;

/// What readers of the console sleep on
pub const CONSOLE_INPUT: usize = 0;

pub const NEWLINE: u8 = 0x0a;

pub const RETURN: u8 = 0x0d;

pub const BACKSPACE: u8 = 0x08;

pub const DELETE: u8 = 0x7f;

pub const SPACE: u8 = 0x20;

pub const CTRL_C: u8 = 0x03;

pub const CTRL_D: u8 = 0x04;

pub const CTRL_H: u8 = 0x08;

pub const CTRL_P: u8 = 0x10;

pub const CTRL_U: u8 = 0x15;

/// Translate character to control-key equivalent.
pub fn ctrl(c: u8) -> (r: u8)
    ensures
        r == (if c >= 0x40 {
            c - 0x40
        } else {
            c + 0xc0
        }),
        c == 0x43 ==> r == CTRL_C,
        c == 0x44 ==> r == CTRL_D,
        c == 0x48 ==> r == CTRL_H,
        c == 0x50 ==> r == CTRL_P,
        c == 0x55 ==> r == CTRL_U,
{
    c.wrapping_sub(0x40)
}

/// The console, as its users see it.
#[verifier::ext_equal]
pub struct ConsoleState {
    /// What has been typed and is there to be read.
    pub ready: Seq<u8>,
    /// The line being edited, which cannot be read yet.
    pub line: Seq<u8>,
    /// Whether input is passed on as it comes
    pub raw: bool,
    /// The process in the foreground
    pub foreground: Option<Pid>,
    /// What is to be shown, in order.
    pub out: Seq<u8>,
}

/// What a character of input asks for beyond the console.
#[derive(Debug, Clone, Copy, PartialEq, Eq, Structural)]
pub enum Effect {
    Nothing,
    /// Wake up the readers of the console.
    Wake,
    /// List the processes.
    Dump,
    /// Kill the process.
    Kill(Pid),
}

/// What erases a character on the screen.
pub open spec fn rubout() -> Seq<u8> {
    seq![BACKSPACE, SPACE, BACKSPACE]
}

impl ConsoleState {
    /// Erasing the last character of the line.
    pub open spec fn erased(self) -> ConsoleState {
        ConsoleState { line: self.line.drop_last(), out: self.out + rubout(), ..self }
    }

    /// Erasing the line, back to a newline.
    pub open spec fn line_killed(self) -> ConsoleState
        decreases self.line.len(),
    {
        if self.line.len() == 0 || self.line.last() == NEWLINE {
            self
        } else {
            self.erased().line_killed()
        }
    }

    /// Whether there is room for a character.
    pub open spec fn room(self) -> bool {
        self.ready.len() + self.line.len() < INPUT_BUF_SIZE
    }

    /// What a character of input does.
    pub open spec fn interrupt(self, c: u8) -> (ConsoleState, Effect) {
        if self.raw && c != 0 && self.room() {
            (
                ConsoleState { ready: self.ready + self.line.push(c), line: seq![], ..self },
                Effect::Wake,
            )
        } else if c == CTRL_H || c == DELETE {
            (
                if self.line.len() > 0 {
                    self.erased()
                } else {
                    self
                },
                Effect::Nothing,
            )
        } else if c == CTRL_P {
            (self, Effect::Dump)
        } else if c == CTRL_U {
            (self.line_killed(), Effect::Nothing)
        } else if c == CTRL_C {
            (
                self,
                match self.foreground {
                    Some(pid) => Effect::Kill(pid),
                    None => Effect::Nothing,
                },
            )
        } else if c != 0 && self.room() {
            let c = if c == RETURN {
                NEWLINE
            } else {
                c
            };
            let line = self.line.push(c);
            let out = self.out.push(c);
            if c == NEWLINE || c == CTRL_D || self.ready.len() + line.len() == INPUT_BUF_SIZE {
                (
                    ConsoleState { ready: self.ready + line, line: seq![], out, ..self },
                    Effect::Wake,
                )
            } else {
                (ConsoleState { line, out, ..self }, Effect::Nothing)
            }
        } else {
            (self, Effect::Nothing)
        }
    }

    /// Reading `target` bytes to `dst`, of which `done` have been read: up to the end of a line or
    /// of the input. `None` where memory is reserved.
    pub open spec fn read(
        self,
        m: UserMem,
        size: int,
        dst: int,
        target: int,
        done: int,
        killed: bool,
    ) -> Option<(ConsoleState, UserMem, Progress)>
        decreases target - done,
    {
        if done >= target {
            Some((self, m, Progress::Done(Ok(done as u64))))
        } else if self.ready.len() == 0 {
            if killed {
                Some((self, m, Progress::Done(Err(SysError::Interrupted))))
            } else {
                Some((self, m, Progress::Sleep(done as u64, Channel::Buffer(CONSOLE_INPUT))))
            }
        } else {
            let c = self.ready[0];
            let rest = ConsoleState { ready: self.ready.skip(1), ..self };
            if !self.raw && c == CTRL_D {
                Some(
                    (
                        if done > 0 {
                            self
                        } else {
                            rest
                        },
                        m,
                        Progress::Done(Ok(done as u64)),
                    ),
                )
            } else {
                match m.put_byte(size, dst + done, c) {
                    None => None,
                    Some((m, Err(_))) => Some((rest, m, Progress::Done(Ok(done as u64)))),
                    Some((m, Ok(()))) => if c == NEWLINE || self.raw {
                        Some((rest, m, Progress::Done(Ok((done + 1) as u64))))
                    } else {
                        rest.read(m, size, dst, target, done + 1, killed)
                    },
                }
            }
        }
    }

    /// Writing the bytes from `src + n` up to `src + len`, a chunk at a time, as far as they can
    /// be read. `None` where memory is reserved or an address overflows.
    pub open spec fn write(self, m: UserMem, size: int, src: int, len: int, n: int) -> Option<
        (ConsoleState, UserMem, u64),
    >
        decreases len - n,
    {
        let chunk = if len - n < CHUNK {
            len - n
        } else {
            CHUNK as int
        };
        if n >= len {
            Some((self, m, len as u64))
        } else if src + n > u64::MAX {
            None
        } else {
            match m.copy_from(size, src + n, chunk, seq![]) {
                None => None,
                Some((m, Err(_))) => Some((self, m, n as u64)),
                Some((m, Ok(bytes))) => ConsoleState { out: self.out + bytes, ..self }.write(
                    m,
                    size,
                    src,
                    len,
                    n + chunk,
                ),
            }
        }
    }

    /// Setting the mode of the console.
    pub open spec fn ioctl(self, cmd: u64, arg: u64) -> (ConsoleState, Result<u64, SysError>) {
        if cmd == Ioctl::CONSOLE_SET_RAW {
            if arg == 1 {
                (ConsoleState { raw: true, line: seq![], ..self }, Ok(0))
            } else {
                (ConsoleState { raw: false, ..self }, Ok(0))
            }
        } else if cmd == Ioctl::CONSOLE_SET_FG_PID {
            (
                ConsoleState {
                    foreground: if arg == 0 {
                        None
                    } else {
                        Some(Pid(arg))
                    },
                    ..self
                },
                Ok(0),
            )
        } else {
            (self, Err(SysError::InvalidArgument))
        }
    }
}

/// Console structure
///
/// The buf is a circular array of 128 bytes. The three indices mark three zones within it, and the
/// invariant is always `r <= w <= e <= r + 128`:
///
/// buf: \[ consumed | completed lines | line being edited \]
/// ----------------^r----------------^w------------------^e
///
/// `e` (edit): the tip of what the user has typed so far. Every character from the interrupt
/// handler appends to `buf[e % 128]` then increments `e`. Backspace decrements `e`. `Ctrl-U` walks
/// `e` back to `w`. Nothing between `w` and `e` is visible to `read()` yet.
///
/// `w` (write): the boundary of what's been committed as a complete unit. When `handle_interrupt`
/// sees `\n`, `Ctrl-D`, or a full buffer, it sets `w = e`. Only moves forward, never back.
///
/// `r` (read): where user-space left off consuming.
#[derive(Debug)]
pub struct Console {
    buf: [u8; INPUT_BUF_SIZE],
    /// read index
    r: u64,
    /// write index (completed input)
    w: u64,
    /// edit index (current editing position)
    e: u64,
    /// raw mode: if true, input is not processed
    raw: bool,
    /// pid of process that has the console as its foreground device
    foreground_pid: Option<Pid>,
    /// bytes for the UART to send
    out: Vec<u8>,
}

impl View for Console {
    type V = ConsoleState;

    closed spec fn view(&self) -> ConsoleState {
        ConsoleState {
            ready: Seq::new(
                (self.w - self.r) as nat,
                |i: int| self.buf@[(self.r + i) % (INPUT_BUF_SIZE as int)],
            ),
            line: Seq::new(
                (self.e - self.w) as nat,
                |i: int| self.buf@[(self.w + i) % (INPUT_BUF_SIZE as int)],
            ),
            raw: self.raw,
            foreground: self.foreground_pid,
            out: self.out@,
        }
    }
}

impl Console {
    /// The indices are in order, and stay within two rounds of the buffer.
    pub closed spec fn wf(self) -> bool {
        &&& self.r <= self.w <= self.e <= self.r + INPUT_BUF_SIZE
        &&& self.e <= 2 * INPUT_BUF_SIZE
    }

    pub fn new() -> (r: Self)
        ensures
            r.wf(),
            r@ == (ConsoleState {
                ready: seq![],
                line: seq![],
                raw: false,
                foreground: None,
                out: seq![],
            }),
    {
        let r = Console {
            buf: [0u8;INPUT_BUF_SIZE],
            r: 0,
            w: 0,
            e: 0,
            raw: false,
            foreground_pid: None,
            out: Vec::new(),
        };
        assert(r@.ready =~= seq![]);
        assert(r@.line =~= seq![]);
        r
    }

    /// Outputs a character to the console.
    pub fn putc_sync(&mut self, c: u8)
        requires
            old(self).wf(),
        ensures
            final(self).wf(),
            final(self)@ == (ConsoleState { out: old(self)@.out.push(c), ..old(self)@ }),
    {
        self.out.push(c);
        assert(self@.ready =~= old(self)@.ready);
        assert(self@.line =~= old(self)@.line);
    }

    /// Handles backspace by erasing the character before the cursor.
    pub fn put_backspace(&mut self)
        requires
            old(self).wf(),
        ensures
            final(self).wf(),
            final(self)@ == (ConsoleState { out: old(self)@.out + rubout(), ..old(self)@ }),
    {
        self.putc_sync(BACKSPACE);  // backspace
        self.putc_sync(SPACE);  // over-write with space
        self.putc_sync(BACKSPACE);  // backspace again
        assert(self@.out =~= old(self)@.out + rubout());
    }

    /// Takes what is to be shown.
    pub fn take_output(&mut self) -> (r: Vec<u8>)
        requires
            old(self).wf(),
        ensures
            final(self).wf(),
            r@ == old(self)@.out,
            final(self)@ == (ConsoleState { out: seq![], ..old(self)@ }),
    {
        let mut out: Vec<u8> = Vec::new();
        std::mem::swap(&mut out, &mut self.out);
        assert(self@.ready =~= old(self)@.ready);
        assert(self@.line =~= old(self)@.line);
        assert(self@.out =~= seq![]);
        out
    }

    /// Whether input is passed on as it comes, and output sent without sleeping.
    pub fn is_raw(&self) -> (r: bool)
        ensures
            r == self@.raw,
    {
        self.raw
    }

    /// Erases the last character of the line.
    fn erase(&mut self)
        requires
            old(self).wf(),
            old(self)@.line.len() > 0,
        ensures
            final(self).wf(),
            final(self)@ == old(self)@.erased(),
    {
        self.e = self.e - 1;
        assert(self@.ready =~= old(self)@.ready);
        assert(self@.line =~= old(self)@.line.drop_last());
        self.put_backspace();
    }

    /// Appends a character to the line.
    fn append(&mut self, c: u8)
        requires
            old(self).wf(),
            old(self)@.room(),
        ensures
            final(self).wf(),
            final(self)@ == (ConsoleState { line: old(self)@.line.push(c), ..old(self)@ }),
    {
        if self.r >= INPUT_BUF_SIZE as u64 {
            self.r = self.r - INPUT_BUF_SIZE as u64;
            self.w = self.w - INPUT_BUF_SIZE as u64;
            self.e = self.e - INPUT_BUF_SIZE as u64;
        }
        assert(self@.ready =~= old(self)@.ready);
        assert(self@.line =~= old(self)@.line);
        let ghost mid = *self;
        let index = (self.e % INPUT_BUF_SIZE as u64) as usize;
        self.buf[index] = c;
        self.e = self.e + 1;
        proof {
            let e0 = mid.e as int;
            assert forall|i: int| 0 <= i < self@.ready.len() implies self@.ready[i]
                == mid@.ready[i] by {
                lemma_ring(self.r + i, e0);
            }
            assert forall|i: int| 0 <= i < mid@.line.len() implies self@.line[i]
                == mid@.line[i] by {
                lemma_ring(self.w + i, e0);
            }
            assert(self@.ready =~= mid@.ready);
            assert(self@.line =~= mid@.line.push(c));
        }
    }

    /// Makes the line readable.
    fn commit(&mut self)
        requires
            old(self).wf(),
        ensures
            final(self).wf(),
            final(self)@ == (ConsoleState {
                ready: old(self)@.ready + old(self)@.line,
                line: seq![],
                ..old(self)@
            }),
    {
        self.w = self.e;
        assert(self@.ready =~= old(self)@.ready + old(self)@.line);
        assert(self@.line =~= seq![]);
    }

    /// Console input interrupt handler, for each input character.
    ///
    /// Does erase/kill processing, appends to `buf`, and says that `read()` is to be woken up if a
    /// whole line has arrived.
    pub fn handle_interrupt(&mut self, c: u8) -> (r: Effect)
        requires
            old(self).wf(),
        ensures
            final(self).wf(),
            (final(self)@, r) == old(self)@.interrupt(c),
    {
        // Raw mode: store the character and wake up `read()` immediately, without processing.
        if self.raw && c != 0 && self.e - self.r < INPUT_BUF_SIZE as u64 {
            self.append(c);
            self.commit();
            assert(old(self)@.ready + old(self)@.line.push(c) == self@.ready);
            return Effect::Wake;
        }
        // Cooked mode: handle special characters and only wake up `read()` when a whole line has
        // arrived.
        if c == ctrl(0x48) || c == DELETE {
            // backspace or delete
            if self.e != self.w {
                self.erase();
            }
            Effect::Nothing
        } else if c == ctrl(0x50) {
            // print process list
            Effect::Dump
        } else if c == ctrl(0x55) {
            // kill the line
            while self.e != self.w && self.buf[((self.e - 1) % INPUT_BUF_SIZE as u64) as usize]
                != NEWLINE
                invariant
                    self.wf(),
                    self@.line_killed() == old(self)@.line_killed(),
                decreases self@.line.len(),
            {
                self.erase();
            }
            assert(self@.line_killed() == self@);
            Effect::Nothing
        } else if c == ctrl(0x43) {
            // kill the process if any
            match self.foreground_pid {
                Some(pid) => Effect::Kill(pid),
                None => Effect::Nothing,
            }
        } else if c != 0 && self.e - self.r < INPUT_BUF_SIZE as u64 {
            // normal character
            let c: u8 = if c == RETURN {
                NEWLINE
            } else {
                c
            };
            // echo back to the user
            self.putc_sync(c);
            // store for consumption by `read()`
            self.append(c);
            // new line or carriage return or end of buffer
            if c == NEWLINE || c == ctrl(0x44) || self.e - self.r == INPUT_BUF_SIZE as u64 {
                self.commit();
                Effect::Wake
            } else {
                Effect::Nothing
            }
        } else {
            Effect::Nothing
        }
    }

    /// Takes the next byte of input.
    fn pop(&mut self)
        requires
            old(self).wf(),
            old(self)@.ready.len() > 0,
        ensures
            final(self).wf(),
            final(self)@ == (ConsoleState { ready: old(self)@.ready.skip(1), ..old(self)@ }),
    {
        self.r = self.r + 1;
        assert(self@.ready =~= old(self)@.ready.skip(1));
        assert(self@.line =~= old(self)@.line);
    }

    /// User `read()`s from the console are handled here: `target` bytes to `dst`, of which `done`
    /// have been read before the process slept.
    pub fn read(
        &mut self,
        data: &mut ProcData,
        kmem: &mut Kmem,
        dst: VA,
        target: u64,
        done: u64,
        killed: bool,
    ) -> (r: Progress)
        requires
            old(self).wf(),
            old(kmem).wf(),
            old(data).ready(old(kmem)@),
            dst.0 + done <= u64::MAX,
            old(self)@.read(
                old(data).mem(old(kmem)@),
                old(data).size as int,
                dst.0 as int,
                target as int,
                done as int,
                killed,
            ) is Some,
        ensures
            final(self).wf(),
            final(kmem).wf(),
            old(data).touched(old(kmem)@, *final(data), final(kmem)@),
            Some((final(self)@, final(data).mem(final(kmem)@), r)) == old(self)@.read(
                old(data).mem(old(kmem)@),
                old(data).size as int,
                dst.0 as int,
                target as int,
                done as int,
                killed,
            ),
    {
        let ghost d0 = *data;
        let ghost k0 = kmem@;
        let ghost want = self@.read(
            data.mem(k0),
            data.size as int,
            dst.0 as int,
            target as int,
            done as int,
            killed,
        );
        let mut i: u64 = done;
        proof {
            kmem.lemma_wf();
            data.lemma_touched_refl(k0);
        }
        while i < target
            invariant
                d0 == *old(data),
                k0 == old(kmem)@,
                kmem_ok(k0),
                d0.ready(k0),
                self.wf(),
                kmem.wf(),
                data.ready(kmem@),
                d0.touched(k0, *data, kmem@),
                done <= i,
                dst.0 + i <= u64::MAX,
                want is Some,
                want == old(self)@.read(
                    d0.mem(k0),
                    d0.size as int,
                    dst.0 as int,
                    target as int,
                    done as int,
                    killed,
                ),
                want == self@.read(
                    data.mem(kmem@),
                    d0.size as int,
                    dst.0 as int,
                    target as int,
                    i as int,
                    killed,
                ),
            decreases target - i,
        {
            // wait until interrupt handler has put some input into `buf`.
            if self.r == self.w {
                if killed {
                    return Progress::Done(Err(SysError::Interrupted));
                }
                return Progress::Sleep(i, Channel::Buffer(CONSOLE_INPUT));
            }
            let c: u8 = self.buf[(self.r % INPUT_BUF_SIZE as u64) as usize];
            assert(c == self@.ready[0]);
            // handle Ctrl-D EOF; only on cooked mode
            if !self.raw && c == ctrl(0x44) {
                // save ^D for next time if there is something, to make sure caller gets a 0-byte
                // result
                if i == 0 {
                    self.pop();
                }
                return Progress::Done(Ok(i));
            }
            self.pop();
            // copy the input byte to the user-space buffer
            let ghost d1 = *data;
            let ghost k1 = kmem@;
            proof {
                kmem.lemma_wf();
                reveal(UserMem::put_byte);
            }
            let buf: [u8; 1] = [c];
            assert(buf@ =~= seq![c]);
            let copied = copy_to_user(data, kmem, &buf, VA(dst.0 + i));
            proof {
                d0.lemma_touched_trans(k0, d1, k1, *data, kmem@);
            }
            if copied.is_err() {
                return Progress::Done(Ok(i));
            }
            assert(dst.0 + i + 1 <= u64::MAX);
            i = i + 1;
            // a whole line has arrived or in raw mode, return to the user-level `read()`
            if c == NEWLINE || self.raw {
                return Progress::Done(Ok(i));
            }
        }
        Progress::Done(Ok(i))
    }

    /// User `write()`s to the console are handled here. Returns how many bytes were written.
    pub fn write(&mut self, data: &mut ProcData, kmem: &mut Kmem, src: VA, len: u64) -> (r: u64)
        requires
            old(self).wf(),
            old(kmem).wf(),
            old(data).ready(old(kmem)@),
            old(self)@.write(
                old(data).mem(old(kmem)@),
                old(data).size as int,
                src.0 as int,
                len as int,
                0,
            ) is Some,
        ensures
            final(self).wf(),
            final(kmem).wf(),
            old(data).touched(old(kmem)@, *final(data), final(kmem)@),
            Some((final(self)@, final(data).mem(final(kmem)@), r)) == old(self)@.write(
                old(data).mem(old(kmem)@),
                old(data).size as int,
                src.0 as int,
                len as int,
                0,
            ),
    {
        let ghost d0 = *data;
        let ghost k0 = kmem@;
        let ghost want = self@.write(data.mem(k0), data.size as int, src.0 as int, len as int, 0);
        let mut n: u64 = 0;
        proof {
            kmem.lemma_wf();
            data.lemma_touched_refl(k0);
        }
        while n < len
            invariant
                d0 == *old(data),
                k0 == old(kmem)@,
                kmem_ok(k0),
                d0.ready(k0),
                self.wf(),
                kmem.wf(),
                data.ready(kmem@),
                d0.touched(k0, *data, kmem@),
                n <= len,
                want is Some,
                want == old(self)@.write(
                    d0.mem(k0),
                    d0.size as int,
                    src.0 as int,
                    len as int,
                    0,
                ),
                want == self@.write(
                    data.mem(kmem@),
                    d0.size as int,
                    src.0 as int,
                    len as int,
                    n as int,
                ),
            decreases len - n,
        {
            let chunk: u64 = if len - n < CHUNK as u64 {
                len - n
            } else {
                CHUNK as u64
            };
            let ghost d1 = *data;
            let ghost k1 = kmem@;
            proof {
                kmem.lemma_wf();
            }
            let mut buf: Vec<u8> = Vec::new();
            assert(buf@ =~= seq![]);
            let copied = copy_from_user(data, kmem, VA(src.0 + n), &mut buf, chunk as usize);
            proof {
                d0.lemma_touched_trans(k0, d1, k1, *data, kmem@);
            }
            if copied.is_err() {
                return n;
            }
            let ghost before = *self;
            self.out.append(&mut buf);
            assert(self@.ready =~= before@.ready);
            assert(self@.line =~= before@.line);
            n = n + chunk;
        }
        len
    }

    pub fn ioctl(&mut self, cmd: u64, arg: u64) -> (r: Result<u64, SysError>)
        requires
            old(self).wf(),
        ensures
            final(self).wf(),
            (final(self)@, r) == old(self)@.ioctl(cmd, arg),
    {
        if cmd == Ioctl::CONSOLE_SET_RAW {
            if arg == 1 {
                self.raw = true;
                self.e = self.w;
                assert(self@.line =~= seq![]);
            } else {
                self.raw = false;
                assert(self@.line =~= old(self)@.line);
            }
            assert(self@.ready =~= old(self)@.ready);
            Ok(0)
        } else if cmd == Ioctl::CONSOLE_SET_FG_PID {
            if arg == 0 {
                self.foreground_pid = None;
            } else {
                self.foreground_pid = Some(Pid::from_u64(arg));
            }
            assert(self@.ready =~= old(self)@.ready);
            assert(self@.line =~= old(self)@.line);
            Ok(0)
        } else {
            Err(SysError::InvalidArgument)
        }
    }
}

/// Places of the ring that are less than its size apart are different.
proof fn lemma_ring(a: int, b: int)
    requires
        0 <= a < b < a + INPUT_BUF_SIZE,
    ensures
        a % (INPUT_BUF_SIZE as int) != b % (INPUT_BUF_SIZE as int),
{
}

/// The line being edited never holds a newline: one that is typed makes the line readable.
pub proof fn law_no_newline_in_line(s: ConsoleState, c: u8)
    requires
        !s.line.contains(NEWLINE),
    ensures
        !s.interrupt(c).0.line.contains(NEWLINE),
{
    let (t, _) = s.interrupt(c);
    lemma_line_killed(s);
    if t.line.contains(NEWLINE) {
        let i = choose|i: int| 0 <= i < t.line.len() && t.line[i] == NEWLINE;
        assert(s.line[i] == NEWLINE);
    }
}

/// What is there to be read is only ever added to by input, never changed.
pub proof fn law_input_only_appends(s: ConsoleState, c: u8)
    ensures
        s.ready.is_prefix_of(s.interrupt(c).0.ready),
        s.interrupt(c).0.ready != s.ready ==> s.interrupt(c).1 is Wake,
{
    lemma_line_killed(s);
}

/// Erasing the line leaves what can be read, and the modes.
proof fn lemma_line_killed(s: ConsoleState)
    ensures
        s.line_killed().ready == s.ready,
        s.line_killed().raw == s.raw,
        s.line_killed().foreground == s.foreground,
        s.line_killed().line.len() <= s.line.len(),
        forall|i: int|
            0 <= i < s.line_killed().line.len() ==> s.line_killed().line[i] == s.line[i],
        (forall|i: int| 0 <= i < s.line.len() ==> s.line[i] != NEWLINE)
            ==> s.line_killed().line.len() == 0,
    decreases s.line.len(),
{
    if s.line.len() > 0 && s.line.last() != NEWLINE {
        lemma_line_killed(s.erased());
        assert forall|i: int| 0 <= i < s.line_killed().line.len() implies s.line_killed().line[i]
            == s.line[i] by {
            assert(s.erased().line[i] == s.line[i]);
        }
    }
}

/// Ctrl-U in cooked mode erases all of the line being edited, which never holds a newline.
pub proof fn law_kill_line(s: ConsoleState)
    requires
        !s.raw,
        !s.line.contains(NEWLINE),
    ensures
        s.interrupt(CTRL_U).0.line == Seq::<u8>::empty(),
        s.interrupt(CTRL_U).0.ready == s.ready,
{
    lemma_line_killed(s);
}

/// A backspace takes back the character before it, on the line and on the screen.
pub proof fn law_backspace(s: ConsoleState, c: u8)
    requires
        !s.raw,
        s.room(),
        s.ready.len() + s.line.len() + 1 < INPUT_BUF_SIZE,
        c != 0 && c != RETURN && c != NEWLINE && c != DELETE,
        c != CTRL_C && c != CTRL_D && c != CTRL_H && c != CTRL_P && c != CTRL_U,
    ensures
        s.interrupt(c).0.interrupt(CTRL_H).0 == (ConsoleState {
            out: s.out.push(c) + rubout(),
            ..s
        }),
{
    assert(s.line.push(c).drop_last() =~= s.line);
}

} // verus!
