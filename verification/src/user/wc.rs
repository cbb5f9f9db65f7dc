//! Counting lines, words and bytes.
use vstd::prelude::*;
use vstd::slice::slice_subrange;
use vstd::utf8::valid_utf8;
use crate::user::text::{is_utf8, space_at, space_len, until_zero, write_decimal, zero_at, decimal};

verus! {

/// The number of newlines.
pub open spec fn newlines(s: Seq<u8>) -> nat
    decreases s.len(),
{
    if s.len() == 0 {
        0
    } else {
        newlines(s.drop_last()) + if s.last() == 0x0a {
            1nat
        } else {
            0nat
        }
    }
}

/// The number of words that begin in text; `inside` says whether a word reaches up to it.
pub open spec fn words(s: Seq<u8>, inside: bool) -> nat
    decreases s.len(),
{
    if s.len() == 0 {
        0
    } else if space_len(s) > 0 {
        words(s.skip(space_len(s)), false)
    } else {
        words(s.skip(1), true) + if inside {
            0nat
        } else {
            1nat
        }
    }
}

/// Whether a word reaches up to the end of text.
pub open spec fn ends_inside(s: Seq<u8>, inside: bool) -> bool
    decreases s.len(),
{
    if s.len() == 0 {
        inside
    } else if space_len(s) > 0 {
        ends_inside(s.skip(space_len(s)), false)
    } else {
        ends_inside(s.skip(1), true)
    }
}

/// Bytes that separate words in what is no well-formed text.
pub open spec fn is_gap(b: u8) -> bool {
    b == 0x20 || b == 0x09 || b == 0x0a || b == 0x0c || b == 0x0d
}

/// The number of words that begin in bytes.
pub open spec fn byte_words(s: Seq<u8>, inside: bool) -> nat
    decreases s.len(),
{
    if s.len() == 0 {
        0
    } else if is_gap(s[0]) {
        byte_words(s.skip(1), false)
    } else {
        byte_words(s.skip(1), true) + if inside {
            0nat
        } else {
            1nat
        }
    }
}

/// What has been counted.
#[verifier::ext_equal]
pub struct Totals {
    pub lines: nat,
    pub words: nat,
    pub bytes: nat,
    /// Whether a word reaches up to the end of what was read
    pub inside: bool,
}

impl Totals {
    /// Counting what was read: text up to the first zero byte, or all bytes if that is no
    /// well-formed text.
    pub open spec fn count(self, chunk: Seq<u8>) -> Totals {
        let text = until_zero(chunk);
        if valid_utf8(text) {
            Totals {
                lines: self.lines + newlines(text),
                words: self.words + words(text, self.inside),
                bytes: self.bytes + text.len(),
                inside: text.len() > 0 && ends_inside(text, false),
            }
        } else {
            Totals {
                lines: self.lines + newlines(chunk),
                words: self.words + byte_words(chunk, self.inside),
                bytes: self.bytes + chunk.len(),
                inside: !is_gap(chunk.last()),
            }
        }
    }
}

/// Counts lines, words and bytes.
#[derive(Debug, Clone, Copy, PartialEq, Eq, Structural)]
pub struct Counter {
    pub l: u64,
    pub w: u64,
    pub c: u64,
    pub in_word: bool,
}

impl View for Counter {
    type V = Totals;

    open spec fn view(&self) -> Totals {
        Totals {
            lines: self.l as nat,
            words: self.w as nat,
            bytes: self.c as nat,
            inside: self.in_word,
        }
    }
}

/// How many newlines there are.
fn count_newlines(s: &[u8]) -> (r: u64)
    ensures
        r == newlines(s@),
        r <= s@.len(),
{
    let mut n: u64 = 0;
    let mut i: usize = 0;
    assert(s@.take(0) =~= Seq::empty());
    while i < s.len()
        invariant
            i <= s@.len(),
            n == newlines(s@.take(i as int)),
            n <= i,
        decreases s@.len() - i,
    {
        assert(s@.take(i + 1).drop_last() =~= s@.take(i as int));
        if s[i] == 0x0a {
            n += 1;
        }
        i += 1;
    }
    assert(s@.take(i as int) =~= s@);
    n
}

/// How many words begin in text, and whether one reaches up to its end.
fn count_words(s: &[u8], in_word: bool) -> (r: (u64, bool))
    ensures
        r.0 == words(s@, in_word),
        r.0 <= s@.len(),
        r.1 == ends_inside(s@, in_word),
{
    let mut n: u64 = 0;
    let mut inside = in_word;
    let mut i: usize = 0;
    assert(s@.skip(0) =~= s@);
    while i < s.len()
        invariant
            i <= s@.len(),
            n <= i,
            words(s@, in_word) == n + words(s@.skip(i as int), inside),
            ends_inside(s@, in_word) == ends_inside(s@.skip(i as int), inside),
        decreases s@.len() - i,
    {
        let ghost t = s@.skip(i as int);
        let k = space_at(s, i);
        if k > 0 {
            assert(t.skip(k as int) =~= s@.skip(i + k));
            inside = false;
            i += k;
        } else {
            assert(t.skip(1) =~= s@.skip(i + 1));
            if !inside {
                n += 1;
            }
            inside = true;
            i += 1;
        }
    }
    (n, inside)
}

/// How many words begin in bytes.
fn count_byte_words(s: &[u8], in_word: bool) -> (r: u64)
    ensures
        r == byte_words(s@, in_word),
        r <= s@.len(),
{
    let mut n: u64 = 0;
    let mut inside = in_word;
    let mut i: usize = 0;
    assert(s@.skip(0) =~= s@);
    while i < s.len()
        invariant
            i <= s@.len(),
            n <= i,
            byte_words(s@, in_word) == n + byte_words(s@.skip(i as int), inside),
        decreases s@.len() - i,
    {
        let ghost t = s@.skip(i as int);
        let b = s[i];
        assert(t[0] == b && t.skip(1) =~= s@.skip(i + 1));
        if b == 0x20 || b == 0x09 || b == 0x0a || b == 0x0c || b == 0x0d {
            inside = false;
        } else {
            if !inside {
                n += 1;
            }
            inside = true;
        }
        i += 1;
    }
    n
}

impl Counter {
    pub fn new() -> (r: Self)
        ensures
            r@ == (Totals { lines: 0, words: 0, bytes: 0, inside: false }),
    {
        Counter { l: 0, w: 0, c: 0, in_word: false }
    }

    /// Counts what was read, which is something.
    pub fn count(&mut self, chunk: &[u8])
        requires
            chunk@.len() > 0,
            old(self).l + chunk@.len() <= u64::MAX,
            old(self).w + chunk@.len() <= u64::MAX,
            old(self).c + chunk@.len() <= u64::MAX,
        ensures
            final(self)@ == old(self)@.count(chunk@),
    {
        let n = zero_at(chunk);
        let text = slice_subrange(chunk, 0, n);
        assert(text@ =~= chunk@.take(n as int));
        if is_utf8(text) {
            let (w, _) = count_words(text, self.in_word);
            let (_, inside) = count_words(text, false);
            self.c = self.c + n as u64;
            self.l = self.l + count_newlines(text);
            self.w = self.w + w;
            self.in_word = n > 0 && inside;
        } else {
            let last = chunk[chunk.len() - 1];
            self.c = self.c + chunk.len() as u64;
            self.l = self.l + count_newlines(chunk);
            self.w = self.w + count_byte_words(chunk, self.in_word);
            self.in_word = !(last == 0x20 || last == 0x09 || last == 0x0a || last == 0x0c || last
                == 0x0d);
        }
    }

    /// The line that shows the result for `name`.
    pub fn line(&self, name: &[u8]) -> (r: Vec<u8>)
        ensures
            r@ == decimal(self.l as nat) + seq![0x20u8] + decimal(self.w as nat) + seq![0x20u8]
                + decimal(self.c as nat) + seq![0x20u8] + name@ + seq![0x0au8],
    {
        let mut out: Vec<u8> = Vec::new();
        write_decimal(&mut out, self.l);
        out.push(0x20);
        write_decimal(&mut out, self.w);
        out.push(0x20);
        write_decimal(&mut out, self.c);
        out.push(0x20);
        out.extend_from_slice(name);
        out.push(0x0a);
        assert(out@ =~= decimal(self.l as nat) + seq![0x20u8] + decimal(self.w as nat)
            + seq![0x20u8] + decimal(self.c as nat) + seq![0x20u8] + name@ + seq![0x0au8]);
        out
    }
}

/// How text is cut into the parts that are read does not matter for the words of plain text.
pub proof fn law_words_in_parts(a: Seq<u8>, b: Seq<u8>, inside: bool)
    requires
        forall|i: int| 0 <= i < a.len() ==> #[trigger] a[i] < 0x80,
        forall|i: int| 0 <= i < b.len() ==> #[trigger] b[i] < 0x80,
    ensures
        words(a + b, inside) == words(a, inside) + words(b, ends_inside(a, inside)),
        ends_inside(a + b, inside) == ends_inside(b, ends_inside(a, inside)),
    decreases a.len(),
{
    if a.len() == 0 {
        assert(a + b =~= b);
    } else {
        assert((a + b)[0] == a[0]);
        assert((a + b).skip(1) =~= a.skip(1) + b);
        law_words_in_parts(a.skip(1), b, !(space_len(a) > 0));
    }
}

} // verus!
