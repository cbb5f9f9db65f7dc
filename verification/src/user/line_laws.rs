//! What the line editor does with what is typed.
use vstd::prelude::*;
use crate::user::line::{
    back_by,
    erase,
    letters_start,
    line_end,
    word_start,
    End,
    LineState,
    Pending,
    HISTORY_SIZE,
    LINE_MAX,
};

verus! {

/// The bytes are characters that can be shown.
pub open spec fn printable(text: Seq<u8>) -> bool {
    forall|i: int| 0 <= i < text.len() ==> 0x20 <= #[trigger] text[i] <= 0x7e
}

/// What is typed behind the end of a line is added to it, in order.
proof fn lemma_typed(s: LineState, text: Seq<u8>, rest: Seq<u8>, i: int, out: Seq<u8>)
    requires
        printable(text),
        0 <= i <= text.len(),
        s.pending == Pending::Nothing,
        s.cursor == s.line.len(),
        s.line.len() + (text.len() - i) <= LINE_MAX,
    ensures
        ({
            let t = LineState {
                line: s.line + text.skip(i),
                cursor: s.cursor + (text.len() - i),
                ..s
            };
            exists|more: Seq<u8>|
                s.read(text + rest, i, out) == #[trigger] t.read(
                    text + rest,
                    text.len() as int,
                    more,
                )
        }),
    decreases text.len() - i,
{
    let t = LineState {
        line: s.line + text.skip(i),
        cursor: s.cursor + (text.len() - i),
        ..s
    };
    if i == text.len() {
        assert(t.line =~= s.line);
        assert(t == s);
    } else {
        let c = text[i];
        assert((text + rest)[i] == c);
        assert(0x20 <= c <= 0x7e);
        let u = LineState { line: s.line.insert(s.cursor, c), cursor: s.cursor + 1, ..s };
        let shown = u.redraw();
        assert(s.feed(c) == Some((u, shown, None::<End>)));
        lemma_typed(u, text, rest, i + 1, out + shown);
        assert(u.line + text.skip(i + 1) =~= t.line);
    }
}

/// A line that is typed and entered is the line that is read, and the last one of the history.
pub proof fn law_line_is_read(s: LineState, text: Seq<u8>, enter: u8, out: Seq<u8>)
    requires
        s.wf(),
        s.pending == Pending::Nothing,
        s.line.len() == 0,
        printable(text),
        text.len() <= LINE_MAX,
        enter == 0x0a || enter == 0x0d,
    ensures
        s.read(text.push(enter), 0, out) is Some,
        ({
            let (t, shown, used, end) = s.read(text.push(enter), 0, out)->0;
            &&& end == Some(End::Line)
            &&& used == text.len() + 1
            &&& t.line == text
            &&& text.len() > 0 ==> t.history.len() > 0 && t.history.last() == text
            &&& text.len() == 0 ==> t.history == s.history
            &&& t.offset == 0
        }),
{
    let rest = seq![enter];
    assert(text + rest =~= text.push(enter));
    lemma_typed(s, text, rest, 0, out);
    let t = LineState { line: s.line + text.skip(0), cursor: s.cursor + text.len(), ..s };
    assert(t.line =~= text);
    let more = choose|more: Seq<u8>|
        s.read(text + rest, 0, out) == #[trigger] t.read(text + rest, text.len() as int, more);
    assert((text + rest)[text.len() as int] == enter);
    assert(t.feed(enter) == Some((t, line_end(), Some(End::Line))));
}

/// The history keeps the last lines, the oldest go.
pub proof fn law_history_grows(s: LineState)
    requires
        s.wf(),
        s.line.len() > 0,
    ensures
        ({
            let t = s.finished();
            &&& t.history.last() == s.line
            &&& t.history.len() == (if s.history.len() < HISTORY_SIZE {
                s.history.len() + 1
            } else {
                HISTORY_SIZE as nat
            })
            &&& forall|k: int|
                1 <= k < t.history.len() ==> #[trigger] t.history[t.history.len() - 1 - k]
                    == s.history[s.history.len() - k]
        }),
{
}

/// The key up shows the lines of the history, the last one first, each once, and the key down goes
/// back to the line itself.
pub proof fn law_history(s: LineState)
    requires
        s.wf(),
        s.pending == Pending::Second(0x5b),
    ensures
        ({
            let n = s.history.len();
            let up = (s.feed(0x41)->0).0;
            let down = (s.feed(0x42)->0).0;
            &&& s.offset < n ==> up.offset == s.offset + 1 && up.line == s.history[n - up.offset]
                && up.cursor == up.line.len() && up.history == s.history
            &&& s.offset == n ==> up.line == s.line && up.offset == s.offset
            &&& s.offset > 1 ==> down.offset == s.offset - 1 && down.line == s.history[n
                - down.offset]
            &&& s.offset == 1 ==> down.offset == 0 && down.line == s.stash
            &&& s.offset == 0 ==> down.line == s.line && down.offset == 0
            &&& s.offset == 0 && n > 0 ==> up.stash == s.line
        }),
{
}

/// The keys left and right move the cursor by one within the line and change no character.
pub proof fn law_arrows(s: LineState)
    requires
        s.wf(),
        s.pending == Pending::Second(0x5b),
    ensures
        ({
            let left = (s.feed(0x44)->0).0;
            let right = (s.feed(0x43)->0).0;
            &&& left.line == s.line && right.line == s.line
            &&& left.cursor == (if s.cursor > 0 {
                s.cursor - 1
            } else {
                0
            })
            &&& right.cursor == (if s.cursor < s.line.len() {
                s.cursor + 1
            } else {
                s.cursor
            })
            &&& left.pending == Pending::Nothing && right.pending == Pending::Nothing
        }),
{
}

/// An escape sequence is the escape character and two more bytes, which are not put into the line.
pub proof fn law_escape(s: LineState, a: u8, b: u8)
    requires
        s.wf(),
        s.pending == Pending::Nothing,
        a != 0x5b,
    ensures
        ({
            let one = (s.feed(0x1b)->0).0;
            let two = (one.feed(a)->0).0;
            &&& one == (LineState { pending: Pending::First, ..s })
            &&& two == (LineState { pending: Pending::Second(a), ..s })
            &&& (two.feed(b)->0).0 == s
        }),
{
}

/// Where the word before `i` starts: from there on come letters and then spaces up to `i`, and what is
/// before it is a space or nothing.
proof fn lemma_word(line: Seq<u8>, i: int)
    requires
        0 <= i <= line.len(),
    ensures
        exists|mid: int| #[trigger] word_between(line, word_start(line, i), mid, i),
    decreases i,
{
    if i > 0 && line[i - 1] == 0x20 {
        lemma_word(line, i - 1);
        let mid = choose|mid: int| #[trigger]
            word_between(line, word_start(line, i - 1), mid, i - 1);
        assert(word_between(line, word_start(line, i), mid, i));
    } else {
        lemma_letters(line, i);
        assert(word_between(line, word_start(line, i), i, i));
    }
}

proof fn lemma_letters(line: Seq<u8>, i: int)
    requires
        0 <= i <= line.len(),
    ensures
        0 <= letters_start(line, i) <= i,
        forall|j: int| letters_start(line, i) <= j < i ==> #[trigger] line[j] != 0x20,
        letters_start(line, i) > 0 ==> line[letters_start(line, i) - 1] == 0x20,
    decreases i,
{
    if i > 0 && line[i - 1] != 0x20 {
        lemma_letters(line, i - 1);
    }
}

/// From `start` to `mid` there are letters, from there to `end` spaces, and before `start` is a space
/// or nothing.
pub open spec fn word_between(line: Seq<u8>, start: int, mid: int, end: int) -> bool {
    &&& 0 <= start <= mid <= end
    &&& forall|j: int| start <= j < mid ==> #[trigger] line[j] != 0x20
    &&& forall|j: int| mid <= j < end ==> #[trigger] line[j] == 0x20
    &&& start > 0 ==> line[start - 1] == 0x20
}

/// The keys that remove: the character before the cursor, all before it, or the word before it with
/// the spaces behind it. What is behind the cursor stays.
pub proof fn law_removing(s: LineState)
    requires
        s.wf(),
        s.pending == Pending::Nothing,
    ensures
        ({
            let back = (s.feed(0x7f)->0).0;
            let all = (s.feed(0x15)->0).0;
            let word = (s.feed(0x17)->0).0;
            &&& s.feed(0x08) == s.feed(0x7f)
            &&& s.cursor > 0 ==> back.cursor == s.cursor - 1 && back.line == s.line.take(
                s.cursor - 1,
            ) + s.line.skip(s.cursor)
            &&& s.cursor == 0 ==> back == s
            &&& all.cursor == 0 && all.line == s.line.skip(s.cursor)
            &&& word.line == s.line.take(word.cursor) + s.line.skip(s.cursor)
            &&& exists|mid: int| #[trigger] word_between(s.line, word.cursor, mid, s.cursor)
        }),
{
    lemma_word(s.line, s.cursor);
    let back = (s.feed(0x7f)->0).0;
    let all = (s.feed(0x15)->0).0;
    if s.cursor > 0 {
        assert(back.line =~= s.line.take(s.cursor - 1) + s.line.skip(s.cursor));
    }
    assert(all.line =~= s.line.skip(s.cursor));
}

/// The other keys: the start and the end of the line, the end of input, which only an empty line is,
/// and giving the line up.
pub proof fn law_other_keys(s: LineState)
    requires
        s.wf(),
        s.pending == Pending::Nothing,
    ensures
        ({
            let (start, _, e1) = s.feed(0x01)->0;
            let (end, _, e2) = s.feed(0x05)->0;
            let (same, shown, e3) = s.feed(0x04)->0;
            let (gone, _, e4) = s.feed(0x03)->0;
            &&& start.line == s.line && start.cursor == 0 && e1 is None
            &&& end.line == s.line && end.cursor == s.line.len() && e2 is None
            &&& same == s
            &&& s.line.len() == 0 <==> e3 == Some(End::Closed)
            &&& s.line.len() > 0 ==> e3 is None && shown.len() == 0
            &&& gone.line.len() == 0 && e4 == Some(End::Line)
        }),
{
}

/// After a character was typed or removed the screen shows the prompt and the whole line, and its
/// cursor is where the line's is.
pub proof fn law_screen(s: LineState, c: u8)
    requires
        s.wf(),
        s.pending == Pending::Nothing,
        (0x20 <= c <= 0x7e && s.line.len() < LINE_MAX) || (c == 0x7f && s.cursor > 0),
    ensures
        ({
            let (t, shown, end) = s.feed(c)->0;
            &&& end is None
            &&& shown == seq![0x0du8] + s.prompt + t.line + seq![0x1bu8, 0x5b, 0x4b] + back_by(
                t.line.len() - t.cursor,
            )
            &&& c != 0x7f ==> t.line == s.line.take(s.cursor).push(c) + s.line.skip(s.cursor)
                && t.cursor == s.cursor + 1
        }),
{
    let (t, shown, end) = s.feed(c)->0;
    assert(erase() == seq![0x1bu8, 0x5b, 0x4b]);
    if c != 0x7f {
        assert(t.line =~= s.line.take(s.cursor).push(c) + s.line.skip(s.cursor));
    }
}

} // verus!
