//! Editing a line of input, with a history of lines before.
use vstd::prelude::*;
use crate::user::text::{decimal, write_decimal};

verus! {

/// The longest line
pub const LINE_MAX: usize = 256;

/// How many lines are kept
pub const HISTORY_SIZE: usize = 16;

pub const ESCAPE: u8 = 0x1b;

pub const SPACE: u8 = 0x20;

/// How the reading of a line ends.
#[derive(Debug, Clone, Copy, PartialEq, Eq, Structural)]
pub enum End {
    /// There is a line.
    Line,
    /// There is no more input.
    Closed,
}

/// How far the input is inside of an escape sequence.
#[derive(Debug, Clone, Copy, PartialEq, Eq, Structural)]
pub enum Pending {
    Nothing,
    /// The escape character has been read.
    First,
    /// The escape character and one more byte have been read.
    Second(u8),
}

/// A line that is edited, as its user sees it.
#[verifier::ext_equal]
pub struct LineState {
    pub line: Seq<u8>,
    /// Where the next character goes
    pub cursor: int,
    pub prompt: Seq<u8>,
    /// The lines before, the last one last
    pub history: Seq<Seq<u8>>,
    /// Which line of the history is shown: 0 is the line itself, 1 the last one before
    pub offset: int,
    /// The line itself while another one is shown
    pub stash: Seq<u8>,
    pub pending: Pending,
}

/// What comes of a byte of input: the line, what is shown, and whether the line is at its end.
pub type Fed = (LineState, Seq<u8>, Option<End>);

/// Erases to the end of the line on the screen.
pub open spec fn erase() -> Seq<u8> {
    seq![ESCAPE, 0x5b, 0x4b]
}

/// Moves the cursor on the screen left by `n`.
pub open spec fn back_by(n: int) -> Seq<u8> {
    if n > 0 {
        seq![ESCAPE, 0x5b] + decimal(n as nat) + seq![0x44u8]
    } else {
        seq![]
    }
}

/// The end of a line on the screen.
pub open spec fn line_end() -> Seq<u8> {
    seq![0x0d, 0x0a]
}

/// Where the word before `i` starts, with the spaces between.
pub open spec fn word_start(line: Seq<u8>, i: int) -> int
    decreases i,
{
    if i > 0 && line[i - 1] == SPACE {
        word_start(line, i - 1)
    } else {
        letters_start(line, i)
    }
}

/// Where the letters before `i` start.
pub open spec fn letters_start(line: Seq<u8>, i: int) -> int
    decreases i,
{
    if i > 0 && line[i - 1] != SPACE {
        letters_start(line, i - 1)
    } else {
        i
    }
}

impl LineState {
    /// Shows the prompt and the line, with the cursor where it is.
    pub open spec fn redraw(self) -> Seq<u8> {
        seq![0x0du8] + self.prompt + self.line + erase() + back_by(self.line.len() - self.cursor)
    }

    /// The line is changed and shown again.
    pub open spec fn shown(self) -> Fed {
        (self, self.redraw(), None)
    }

    /// Nothing happens.
    pub open spec fn ignored(self) -> Fed {
        (self, seq![], None)
    }

    /// Another line is put in place, with the cursor at its end.
    pub open spec fn with_line(self, line: Seq<u8>) -> LineState {
        LineState { line, cursor: line.len() as int, ..self }
    }

    /// The line before the one that is shown.
    pub open spec fn history_up(self) -> Fed {
        if self.offset >= self.history.len() {
            self.ignored()
        } else {
            LineState {
                stash: if self.offset == 0 {
                    self.line
                } else {
                    self.stash
                },
                offset: self.offset + 1,
                ..self
            }.with_line(self.history[self.history.len() - self.offset - 1]).shown()
        }
    }

    /// The line after the one that is shown.
    pub open spec fn history_down(self) -> Fed {
        if self.offset == 0 {
            self.ignored()
        } else {
            LineState { offset: self.offset - 1, ..self }.with_line(
                if self.offset == 1 {
                    self.stash
                } else {
                    self.history[self.history.len() - self.offset + 1]
                },
            ).shown()
        }
    }

    pub open spec fn move_left(self) -> Fed {
        if self.cursor > 0 {
            (
                LineState { cursor: self.cursor - 1, ..self },
                seq![ESCAPE, 0x5b, 0x44],
                None,
            )
        } else {
            self.ignored()
        }
    }

    pub open spec fn move_right(self) -> Fed {
        if self.cursor < self.line.len() {
            (
                LineState { cursor: self.cursor + 1, ..self },
                seq![ESCAPE, 0x5b, 0x43],
                None,
            )
        } else {
            self.ignored()
        }
    }

    /// What an escape sequence does.
    pub open spec fn escape(self, a: u8, b: u8) -> Fed {
        if a != 0x5b {
            self.ignored()
        } else if b == 0x41 {
            self.history_up()
        } else if b == 0x42 {
            self.history_down()
        } else if b == 0x44 {
            self.move_left()
        } else if b == 0x43 {
            self.move_right()
        } else {
            self.ignored()
        }
    }

    /// The character before the cursor is removed.
    pub open spec fn backspace(self) -> Fed {
        if self.cursor == 0 {
            self.ignored()
        } else {
            LineState {
                line: self.line.remove(self.cursor - 1),
                cursor: self.cursor - 1,
                ..self
            }.shown()
        }
    }

    /// What is before the cursor is removed, from `start` on.
    pub open spec fn cut(self, start: int) -> Fed {
        LineState {
            line: self.line.take(start) + self.line.skip(self.cursor),
            cursor: start,
            ..self
        }.shown()
    }

    /// A character is put in at the cursor. `None` where there is no room for it.
    pub open spec fn insert(self, c: u8) -> Option<Fed> {
        if self.cursor >= LINE_MAX {
            Some(self.ignored())
        } else if self.line.len() >= LINE_MAX {
            None
        } else {
            Some(
                LineState {
                    line: self.line.insert(self.cursor, c),
                    cursor: self.cursor + 1,
                    ..self
                }.shown(),
            )
        }
    }

    /// What a byte of input does.
    pub open spec fn feed(self, c: u8) -> Option<Fed> {
        match self.pending {
            Pending::First => Some(
                LineState { pending: Pending::Second(c), ..self }.ignored(),
            ),
            Pending::Second(a) => Some(
                LineState { pending: Pending::Nothing, ..self }.escape(a, c),
            ),
            Pending::Nothing => if c == 0x0a || c == 0x0d {
                Some((self, line_end(), Some(End::Line)))
            } else if c == 0x08 || c == 0x7f {
                Some(self.backspace())
            } else if c == ESCAPE {
                Some(LineState { pending: Pending::First, ..self }.ignored())
            } else if c == 0x01 {
                Some(LineState { cursor: 0, ..self }.shown())
            } else if c == 0x05 {
                Some(LineState { cursor: self.line.len() as int, ..self }.shown())
            } else if c == 0x15 {
                Some(self.cut(0))
            } else if c == 0x17 {
                Some(self.cut(word_start(self.line, self.cursor)))
            } else if c == 0x0c {
                Some((self, clear_screen() + self.redraw(), None))
            } else if c == 0x04 && self.line.len() == 0 {
                Some((self, line_end(), Some(End::Closed)))
            } else if c == 0x03 {
                Some((self.with_line(seq![]), seq![0x5eu8, 0x43] + line_end(), Some(End::Line)))
            } else if 0x20 <= c <= 0x7e {
                self.insert(c)
            } else {
                Some(self.ignored())
            },
        }
    }

    /// The line has been read: it goes to the history unless it is empty.
    pub open spec fn finished(self) -> LineState {
        let all = self.history.push(self.line);
        LineState {
            history: if self.line.len() == 0 {
                self.history
            } else if all.len() > HISTORY_SIZE {
                all.skip(1)
            } else {
                all
            },
            offset: 0,
            ..self
        }
    }

    /// Reading a line from `input`, from `i` on, after `out` was shown: how many bytes were used,
    /// and how it ended if it did. `None` where a character is to be put in for which there is no
    /// room.
    pub open spec fn read(self, input: Seq<u8>, i: int, out: Seq<u8>) -> Option<
        (LineState, Seq<u8>, int, Option<End>),
    >
        decreases input.len() - i,
    {
        if i >= input.len() {
            Some((self, out, i, None))
        } else {
            match self.feed(input[i]) {
                None => None,
                Some((s, more, Some(End::Line))) => Some(
                    (s.finished(), out + more, i + 1, Some(End::Line)),
                ),
                Some((s, more, Some(End::Closed))) => Some(
                    (s, out + more, i + 1, Some(End::Closed)),
                ),
                Some((s, more, None)) => s.read(input, i + 1, out + more),
            }
        }
    }

    /// A character can be put in, or is ignored: the line is not full, or the cursor is at its end.
    pub open spec fn has_room(self) -> bool {
        self.line.len() < LINE_MAX || self.cursor >= LINE_MAX
    }

    /// The cursor is in the line, and the history is not too long.
    pub open spec fn wf(self) -> bool {
        &&& 0 <= self.cursor <= self.line.len() <= LINE_MAX
        &&& self.history.len() <= HISTORY_SIZE
        &&& 0 <= self.offset <= self.history.len()
        &&& self.stash.len() <= LINE_MAX
        &&& forall|i: int| 0 <= i < self.history.len() ==> (#[trigger] self.history[i]).len() <= LINE_MAX
    }
}

/// Clears the screen and moves the cursor to its top.
pub open spec fn clear_screen() -> Seq<u8> {
    seq![ESCAPE, 0x5b, 0x32, 0x4a, ESCAPE, 0x5b, 0x48]
}

/// A line editor for reading user input from the console, supporting basic editing
/// and a history of previous lines entered.
#[derive(Debug)]
pub struct LineEditor {
    /// the current line being edited
    buf: Vec<u8>,
    /// index of the character being edited in the `buf`
    cursor: usize,
    /// the prompt to display before the line
    prompt: Vec<u8>,
    /// previous lines entered
    history: Vec<Vec<u8>>,
    /// which entry of `history` is displayed: 0 = current line, 1 = most-recent entry
    history_offset: usize,
    /// the current line when navigating history
    stashed: Vec<u8>,
    /// how far the input is inside of an escape sequence
    pending: Pending,
}

impl View for LineEditor {
    type V = LineState;

    closed spec fn view(&self) -> LineState {
        LineState {
            line: self.buf@,
            cursor: self.cursor as int,
            prompt: self.prompt@,
            history: self.history@.map_values(|v: Vec<u8>| v@),
            offset: self.history_offset as int,
            stash: self.stashed@,
            pending: self.pending,
        }
    }
}

/// What was read of a line.
#[derive(Debug)]
pub struct Reading {
    /// What is to be shown
    pub out: Vec<u8>,
    /// How many bytes of the input were used
    pub used: usize,
    /// How the reading ended, if it did
    pub end: Option<End>,
}

/// A copy of bytes.
fn copied(s: &[u8]) -> (r: Vec<u8>)
    ensures
        r@ == s@,
{
    let mut v: Vec<u8> = Vec::new();
    v.extend_from_slice(s);
    assert(v@ =~= s@);
    v
}

impl LineEditor {
    pub fn new() -> (r: Self)
        ensures
            r@ == (LineState {
                line: seq![],
                cursor: 0,
                prompt: seq![],
                history: seq![],
                offset: 0,
                stash: seq![],
                pending: Pending::Nothing,
            }),
    {
        let r = LineEditor {
            buf: Vec::new(),
            cursor: 0,
            prompt: Vec::new(),
            history: Vec::new(),
            history_offset: 0,
            stashed: Vec::new(),
            pending: Pending::Nothing,
        };
        assert(r@ =~= LineState {
            line: seq![],
            cursor: 0,
            prompt: seq![],
            history: seq![],
            offset: 0,
            stash: seq![],
            pending: Pending::Nothing,
        });
        r
    }

    /// The current line.
    pub fn line(&self) -> (r: &[u8])
        ensures
            r@ == self@.line,
    {
        self.buf.as_slice()
    }

    /// Whether any byte can be handled next. If not, a character that would be put in cannot.
    pub fn has_room(&self) -> (r: bool)
        ensures
            r == self@.has_room(),
    {
        self.buf.len() < LINE_MAX || self.cursor >= LINE_MAX
    }

    /// Starts an empty line behind `prompt`, which is to be shown.
    pub fn begin(&mut self, prompt: &[u8])
        requires
            old(self)@.wf(),
        ensures
            final(self)@ == (LineState { line: seq![], cursor: 0, prompt: prompt@, ..old(self)@ }),
            final(self)@.wf(),
    {
        self.buf.clear();
        self.cursor = 0;
        self.prompt = copied(prompt);
        assert(self.buf@ =~= seq![]);
        assert(self@.history =~= old(self)@.history);
    }

    /// Reads a line from the `input` that is there. If the input ends before the line does, the
    /// next call goes on with what comes then. The console is in raw mode meanwhile.
    pub fn read_line(&mut self, input: &[u8]) -> (r: Reading)
        requires
            old(self)@.wf(),
            old(self)@.read(input@, 0, seq![]) is Some,
        ensures
            final(self)@.wf(),
            Some((final(self)@, r.out@, r.used as int, r.end)) == old(self)@.read(
                input@,
                0,
                seq![],
            ),
    {
        let ghost want = self@.read(input@, 0, seq![]);
        let mut out: Vec<u8> = Vec::new();
        let mut i: usize = 0;
        assert(out@ =~= seq![]);
        while i < input.len()
            invariant
                i <= input@.len(),
                self@.wf(),
                want is Some,
                want == old(self)@.read(input@, 0, seq![]),
                want == self@.read(input@, i as int, out@),
            decreases input@.len() - i,
        {
            let end = self.feed(input[i], &mut out);
            i += 1;
            match end {
                Some(End::Line) => {
                    self.finish();
                    return Reading { out, used: i, end: Some(End::Line) };
                },
                Some(End::Closed) => {
                    return Reading { out, used: i, end: Some(End::Closed) };
                },
                None => {},
            }
        }
        Reading { out, used: i, end: None }
    }

    /// Handles a byte of input. Appends to `out` what is to be shown.
    fn feed(&mut self, c: u8, out: &mut Vec<u8>) -> (r: Option<End>)
        requires
            old(self)@.wf(),
            old(self)@.feed(c) is Some,
        ensures
            final(self)@.wf(),
            ({
                let (s, more, end) = old(self)@.feed(c)->0;
                final(self)@ == s && final(out)@ == old(out)@ + more && r == end
            }),
    {
        proof {
            assert(out@ + seq![] =~= out@);
        }
        match self.pending {
            Pending::First => {
                self.pending = Pending::Second(c);
                assert(self@ =~= LineState { pending: Pending::Second(c), ..old(self)@ });
                return None;
            },
            Pending::Second(a) => {
                self.pending = Pending::Nothing;
                assert(self@ =~= LineState { pending: Pending::Nothing, ..old(self)@ });
                self.handle_escape(a, c, out);
                return None;
            },
            Pending::Nothing => {},
        }
        if c == 0x0a || c == 0x0d {
            // enter
            out.push(0x0d);
            out.push(0x0a);
            assert(out@ =~= old(out)@ + line_end());
            return Some(End::Line);
        }
        if c == 0x08 || c == 0x7f {
            // backspace or delete
            self.backspace(out);
        } else if c == ESCAPE {
            // start of escape sequence
            self.pending = Pending::First;
            assert(self@ =~= LineState { pending: Pending::First, ..old(self)@ });
        } else if c == 0x01 {
            // Ctrl-A
            self.move_to_start(out);
        } else if c == 0x05 {
            // Ctrl-E
            self.move_to_end(out);
        } else if c == 0x15 {
            // Ctrl-U
            self.kill_line(out);
        } else if c == 0x17 {
            // Ctrl-W
            self.kill_word(out);
        } else if c == 0x0c {
            // Ctrl-L
            self.redraw_full(out);
        } else if c == 0x04 && self.buf.len() == 0 {
            // Ctrl-D
            out.push(0x0d);
            out.push(0x0a);
            assert(out@ =~= old(out)@ + line_end());
            return Some(End::Closed);
        } else if c == 0x03 {
            // Ctrl-C
            out.push(0x5e);
            out.push(0x43);
            out.push(0x0d);
            out.push(0x0a);
            self.buf.clear();
            self.cursor = 0;
            assert(out@ =~= old(out)@ + (seq![0x5eu8, 0x43] + line_end()));
            assert(self@ =~= old(self)@.with_line(seq![]));
            return Some(End::Line);
        } else if 0x20 <= c && c <= 0x7e {
            // normal character
            self.insert(c, out);
        }
        None
    }

    /// Handles an escape sequence: the two bytes after the escape character.
    fn handle_escape(&mut self, a: u8, b: u8, out: &mut Vec<u8>)
        requires
            old(self)@.wf(),
        ensures
            final(self)@.wf(),
            ({
                let (s, more, end) = old(self)@.escape(a, b);
                final(self)@ == s && final(out)@ == old(out)@ + more && end is None
            }),
    {
        assert(out@ + seq![] =~= out@);
        if a != 0x5b {
            return;
        }
        match b {
            0x41 => self.history_up(out),
            0x42 => self.history_down(out),
            0x44 => self.move_left(out),
            0x43 => self.move_right(out),
            _ => {},
        }
    }

    fn insert(&mut self, c: u8, out: &mut Vec<u8>)
        requires
            old(self)@.wf(),
            old(self)@.insert(c) is Some,
        ensures
            final(self)@.wf(),
            ({
                let (s, more, end) = old(self)@.insert(c)->0;
                final(self)@ == s && final(out)@ == old(out)@ + more && end is None
            }),
    {
        if self.cursor >= LINE_MAX {
            assert(out@ + seq![] =~= out@);
            return;
        }
        // place c at cursor
        self.buf.insert(self.cursor, c);
        self.cursor = self.cursor + 1;
        assert(self@.history =~= old(self)@.history);
        self.redraw(out);
    }

    fn backspace(&mut self, out: &mut Vec<u8>)
        requires
            old(self)@.wf(),
        ensures
            final(self)@.wf(),
            ({
                let (s, more, end) = old(self)@.backspace();
                final(self)@ == s && final(out)@ == old(out)@ + more && end is None
            }),
    {
        if self.cursor == 0 {
            assert(out@ + seq![] =~= out@);
            return;
        }
        self.buf.remove(self.cursor - 1);
        self.cursor = self.cursor - 1;
        assert(self@.history =~= old(self)@.history);
        self.redraw(out);
    }

    /// Removes what is before the cursor, from `start` on.
    fn cut(&mut self, start: usize, out: &mut Vec<u8>)
        requires
            old(self)@.wf(),
            start <= old(self)@.cursor,
        ensures
            final(self)@.wf(),
            ({
                let (s, more, end) = old(self)@.cut(start as int);
                final(self)@ == s && final(out)@ == old(out)@ + more && end is None
            }),
    {
        let mut line = copied(vstd::slice::slice_subrange(self.buf.as_slice(), 0, start));
        let rest = vstd::slice::slice_subrange(self.buf.as_slice(), self.cursor, self.buf.len());
        line.extend_from_slice(rest);
        assert(line@ =~= self.buf@.take(start as int) + self.buf@.skip(self.cursor as int));
        self.buf = line;
        self.cursor = start;
        assert(self@.history =~= old(self)@.history);
        self.redraw(out);
    }

    fn kill_line(&mut self, out: &mut Vec<u8>)
        requires
            old(self)@.wf(),
        ensures
            final(self)@.wf(),
            ({
                let (s, more, end) = old(self)@.cut(0);
                final(self)@ == s && final(out)@ == old(out)@ + more && end is None
            }),
    {
        self.cut(0, out);
    }

    fn kill_word(&mut self, out: &mut Vec<u8>)
        requires
            old(self)@.wf(),
        ensures
            final(self)@.wf(),
            ({
                let (s, more, end) = old(self)@.cut(
                    word_start(old(self)@.line, old(self)@.cursor),
                );
                final(self)@ == s && final(out)@ == old(out)@ + more && end is None
            }),
    {
        let mut i = self.cursor;
        // skip over any spaces before a word
        while i > 0 && self.buf[i - 1] == SPACE
            invariant
                i <= self.cursor <= self.buf@.len(),
                word_start(self.buf@, self.cursor as int) == word_start(self.buf@, i as int),
            decreases i,
        {
            i -= 1;
        }
        assert(word_start(self.buf@, i as int) == letters_start(self.buf@, i as int));
        // skip over the first word
        while i > 0 && self.buf[i - 1] != SPACE
            invariant
                i <= self.cursor <= self.buf@.len(),
                word_start(self.buf@, self.cursor as int) == letters_start(self.buf@, i as int),
            decreases i,
        {
            i -= 1;
        }
        self.cut(i, out);
    }

    fn move_left(&mut self, out: &mut Vec<u8>)
        requires
            old(self)@.wf(),
        ensures
            final(self)@.wf(),
            ({
                let (s, more, end) = old(self)@.move_left();
                final(self)@ == s && final(out)@ == old(out)@ + more && end is None
            }),
    {
        if self.cursor > 0 {
            self.cursor = self.cursor - 1;
            out.push(ESCAPE);
            out.push(0x5b);
            out.push(0x44);
            assert(out@ =~= old(out)@ + seq![ESCAPE, 0x5b, 0x44]);
            assert(self@.history =~= old(self)@.history);
        } else {
            assert(out@ + seq![] =~= out@);
        }
    }

    fn move_right(&mut self, out: &mut Vec<u8>)
        requires
            old(self)@.wf(),
        ensures
            final(self)@.wf(),
            ({
                let (s, more, end) = old(self)@.move_right();
                final(self)@ == s && final(out)@ == old(out)@ + more && end is None
            }),
    {
        if self.cursor < self.buf.len() {
            self.cursor = self.cursor + 1;
            out.push(ESCAPE);
            out.push(0x5b);
            out.push(0x43);
            assert(out@ =~= old(out)@ + seq![ESCAPE, 0x5b, 0x43]);
            assert(self@.history =~= old(self)@.history);
        } else {
            assert(out@ + seq![] =~= out@);
        }
    }

    fn move_to_start(&mut self, out: &mut Vec<u8>)
        requires
            old(self)@.wf(),
        ensures
            final(self)@.wf(),
            final(self)@ == (LineState { cursor: 0, ..old(self)@ }),
            final(out)@ == old(out)@ + final(self)@.redraw(),
    {
        self.cursor = 0;
        assert(self@.history =~= old(self)@.history);
        self.redraw(out);
    }

    fn move_to_end(&mut self, out: &mut Vec<u8>)
        requires
            old(self)@.wf(),
        ensures
            final(self)@.wf(),
            final(self)@ == (LineState { cursor: old(self)@.line.len() as int, ..old(self)@ }),
            final(out)@ == old(out)@ + final(self)@.redraw(),
    {
        self.cursor = self.buf.len();
        assert(self@.history =~= old(self)@.history);
        self.redraw(out);
    }

    /// Shows the prompt and the line, with the cursor where it is.
    fn redraw(&self, out: &mut Vec<u8>)
        requires
            self@.wf(),
        ensures
            final(out)@ == old(out)@ + self@.redraw(),
    {
        // move cursor to start of line
        out.push(0x0d);
        out.extend_from_slice(self.prompt.as_slice());
        // line content
        out.extend_from_slice(self.buf.as_slice());
        // erase trailing characters from previous longer line
        out.push(ESCAPE);
        out.push(0x5b);
        out.push(0x4b);
        let ghost so_far = seq![0x0du8] + self.prompt@ + self.buf@ + erase();
        assert(out@ =~= old(out)@ + so_far);
        // move cursor to correct position if it isn't already
        let back = self.buf.len() - self.cursor;
        if back > 0 {
            out.push(ESCAPE);
            out.push(0x5b);
            write_decimal(out, back as u64);
            out.push(0x44);
        }
        assert(out@ =~= old(out)@ + self@.redraw());
    }

    fn redraw_full(&self, out: &mut Vec<u8>)
        requires
            self@.wf(),
        ensures
            final(out)@ == old(out)@ + (clear_screen() + self@.redraw()),
    {
        // \x1b[2J clears the entire screen, \x1b[H moves cursor to top-left
        out.push(ESCAPE);
        out.push(0x5b);
        out.push(0x32);
        out.push(0x4a);
        out.push(ESCAPE);
        out.push(0x5b);
        out.push(0x48);
        assert(out@ =~= old(out)@ + clear_screen());
        self.redraw(out);
        assert(out@ =~= old(out)@ + (clear_screen() + self@.redraw()));
    }

    /// Ends the line: it goes to the history unless it is empty.
    fn finish(&mut self)
        requires
            old(self)@.wf(),
        ensures
            final(self)@.wf(),
            final(self)@ == old(self)@.finished(),
    {
        if self.buf.len() > 0 {
            self.add_to_history();
        }
        self.history_offset = 0;
        assert(self@ =~= old(self)@.finished());
    }

    fn add_to_history(&mut self)
        requires
            old(self)@.wf(),
            old(self)@.line.len() > 0,
        ensures
            final(self)@ == (LineState {
                history: old(self)@.finished().history,
                ..old(self)@
            }),
    {
        let line = copied(self.buf.as_slice());
        self.history.push(line);
        let ghost all = old(self)@.history.push(old(self)@.line);
        assert(self@.history =~= all);
        if self.history.len() > HISTORY_SIZE {
            self.history.remove(0);
            assert(self@.history =~= all.skip(1));
        }
    }

    /// Puts the line of the history in place that is `history_offset` lines before.
    fn load_from_history(&mut self)
        requires
            1 <= old(self)@.offset <= old(self)@.history.len(),
        ensures
            final(self)@ == old(self)@.with_line(
                old(self)@.history[old(self)@.history.len() - old(self)@.offset],
            ),
    {
        let slot = self.history.len() - self.history_offset;
        self.buf = copied(self.history[slot].as_slice());
        self.cursor = self.buf.len();
        assert(self@.history =~= old(self)@.history);
    }

    fn history_up(&mut self, out: &mut Vec<u8>)
        requires
            old(self)@.wf(),
        ensures
            final(self)@.wf(),
            ({
                let (s, more, end) = old(self)@.history_up();
                final(self)@ == s && final(out)@ == old(out)@ + more && end is None
            }),
    {
        if self.history_offset >= self.history.len() {
            assert(out@ + seq![] =~= out@);
            return;
        }
        if self.history_offset == 0 {
            // stash current line before replacing it
            self.stashed = copied(self.buf.as_slice());
        }
        self.history_offset = self.history_offset + 1;
        assert(self@.history =~= old(self)@.history);
        self.load_from_history();
        self.redraw(out);
    }

    fn history_down(&mut self, out: &mut Vec<u8>)
        requires
            old(self)@.wf(),
        ensures
            final(self)@.wf(),
            ({
                let (s, more, end) = old(self)@.history_down();
                final(self)@ == s && final(out)@ == old(out)@ + more && end is None
            }),
    {
        if self.history_offset == 0 {
            assert(out@ + seq![] =~= out@);
            return;
        }
        self.history_offset = self.history_offset - 1;
        assert(self@.history =~= old(self)@.history);
        if self.history_offset == 0 {
            // restore stashed line
            self.buf = copied(self.stashed.as_slice());
            self.cursor = self.buf.len();
            assert(self@.history =~= old(self)@.history);
        } else {
            self.load_from_history();
        }
        self.redraw(out);
    }
}

/// Up and down again is the line itself, with the cursor at its end.
pub proof fn law_up_and_down(s: LineState)
    requires
        s.wf(),
        s.offset == 0,
        s.history.len() > 0,
    ensures
        s.history_up().0.history_down().0 == (LineState { stash: s.line, ..s }).with_line(s.line),
{
}

/// The last line that was entered is the first one to come up.
pub proof fn law_last_line_first(s: LineState)
    requires
        s.wf(),
        s.line.len() > 0,
    ensures
        s.finished().history_up().0.line == s.line,
{
}

/// A character that is put in and removed again leaves the line as it was.
pub proof fn law_insert_backspace(s: LineState, c: u8)
    requires
        s.wf(),
        s.line.len() < LINE_MAX,
    ensures
        s.insert(c) is Some,
        (s.insert(c)->0).0.backspace().0 == s,
{
    let t = (s.insert(c)->0).0;
    assert(t.line.remove(t.cursor - 1) =~= s.line);
}

/// Any byte can be handled as long as there is room.
pub proof fn law_room(s: LineState, c: u8)
    requires
        s.has_room(),
    ensures
        s.feed(c) is Some,
{
}

/// Whatever is typed, the cursor stays in the line and the history within its bounds.
pub proof fn law_line_in_bounds(s: LineState, c: u8)
    requires
        s.wf(),
        s.feed(c) is Some,
    ensures
        (s.feed(c)->0).0.wf(),
        s.finished().wf(),
{
    lemma_word_start(s.line, s.cursor);
}

proof fn lemma_word_start(line: Seq<u8>, i: int)
    requires
        0 <= i,
    ensures
        0 <= word_start(line, i) <= i,
        0 <= letters_start(line, i) <= i,
    decreases i,
{
    if i > 0 {
        lemma_word_start(line, i - 1);
    }
}

} // verus!
