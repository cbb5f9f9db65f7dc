//! What is counted, and how a directory is listed.
use vstd::prelude::*;
use vstd::utf8::{is_leading_byte_width_1, pop_first_scalar, valid_first_scalar, valid_utf8};
use crate::fs::inode::InodeType;
use crate::param::MAXPATH;
use crate::user::ls::{joined, shown, Act, Job, Reply, ENTRY_SIZE};
use crate::user::text::{space_len, until_zero};
use crate::user::wc::{ends_inside, law_words_in_parts, newlines, words, Totals};

verus! {

/// Plain text: characters of one byte, and none of them zero.
pub open spec fn plain(s: Seq<u8>) -> bool {
    forall|i: int| 0 <= i < s.len() ==> 0 < #[trigger] s[i] < 0x80
}

/// The characters between words.
pub open spec fn is_space(b: u8) -> bool {
    b == 0x20 || 0x09 <= b <= 0x0d
}

/// A word begins at `i`.
pub open spec fn begins(s: Seq<u8>, i: int) -> bool {
    !is_space(s[i]) && (i == 0 || is_space(s[i - 1]))
}

/// At how many places of the first `n` the condition holds.
pub open spec fn places(f: spec_fn(int) -> bool, n: int) -> nat
    decreases n,
{
    if n <= 0 {
        0
    } else {
        places(f, n - 1) + if f(n - 1) {
            1nat
        } else {
            0nat
        }
    }
}

proof fn lemma_same_places(f: spec_fn(int) -> bool, g: spec_fn(int) -> bool, n: int)
    requires
        forall|i: int| 0 <= i < n ==> #[trigger] f(i) == g(i),
    ensures
        places(f, n) == places(g, n),
    decreases n,
{
    if n > 0 {
        lemma_same_places(f, g, n - 1);
        assert(f(n - 1) == g(n - 1));
    }
}

/// The number of lines is that of newline characters.
pub proof fn law_newlines(s: Seq<u8>)
    ensures
        newlines(s) == places(|i: int| s[i] == 0x0a, s.len() as int),
    decreases s.len(),
{
    if s.len() > 0 {
        let t = s.drop_last();
        law_newlines(t);
        lemma_same_places(|i: int| t[i] == 0x0a, |i: int| s[i] == 0x0a, t.len() as int);
    }
}

/// Whether plain text ends in a word is what its last character says.
proof fn lemma_ends(s: Seq<u8>, inside: bool)
    requires
        plain(s),
    ensures
        s.len() > 0 ==> ends_inside(s, inside) == !is_space(s.last()),
    decreases s.len(),
{
    if s.len() > 0 {
        let rest = s.skip(1);
        assert(0 < s[0] < 0x80);
        assert((space_len(s) > 0) == is_space(s[0]) && space_len(s) <= 1);
        assert(plain(rest)) by {
            assert forall|i: int| 0 <= i < rest.len() implies 0 < #[trigger] rest[i] < 0x80 by {
                assert(rest[i] == s[i + 1]);
            }
        }
        lemma_ends(rest, !is_space(s[0]));
        if rest.len() > 0 {
            assert(rest.last() == s.last());
        } else {
            assert(ends_inside(rest, !is_space(s[0])) == !is_space(s[0]));
        }
        assert(ends_inside(s, inside) == ends_inside(rest, !is_space(s[0])));
    }
}

/// The number of words in plain text is that of the places where one begins.
pub proof fn law_words(s: Seq<u8>)
    requires
        plain(s),
    ensures
        words(s, false) == places(|i: int| begins(s, i), s.len() as int),
    decreases s.len(),
{
    if s.len() > 0 {
        let t = s.drop_last();
        let one = seq![s.last()];
        let n = t.len() as int;
        assert(plain(t)) by {
            assert forall|i: int| 0 <= i < t.len() implies 0 < #[trigger] t[i] < 0x80 by {
                assert(t[i] == s[i]);
            }
        }
        assert(0 < s[n] < 0x80);
        assert(t + one =~= s);
        law_words(t);
        law_words_in_parts(t, one, false);
        lemma_ends(t, false);
        let none: Seq<u8> = seq![];
        assert(one.skip(1) =~= none);
        let inside = ends_inside(t, false);
        assert((space_len(one) > 0) == is_space(s.last()) && space_len(one) <= 1);
        assert(words(none, true) == 0 && words(none, false) == 0);
        assert(words(one, inside) == (if !is_space(s.last()) && !inside {
            1nat
        } else {
            0nat
        }));
        lemma_same_places(|i: int| begins(t, i), |i: int| begins(s, i), n);
    }
}

/// Plain text has no zero byte and is well formed.
proof fn lemma_plain(s: Seq<u8>)
    requires
        plain(s),
    ensures
        until_zero(s) == s,
        valid_utf8(s),
    decreases s.len(),
{
    if s.len() > 0 {
        let rest = s.skip(1);
        assert(0 < s[0] < 0x80);
        assert(is_leading_byte_width_1(s[0]));
        assert(valid_first_scalar(s));
        assert(pop_first_scalar(s) =~= rest);
        assert(plain(rest)) by {
            assert forall|i: int| 0 <= i < rest.len() implies 0 < #[trigger] rest[i] < 0x80 by {
                assert(rest[i] == s[i + 1]);
            }
        }
        lemma_plain(rest);
        assert(seq![s[0]] + rest =~= s);
    } else {
        assert(until_zero(s) =~= s);
    }
}

/// What is counted of plain text does not depend on the parts that it is read in: lines, words and
/// bytes are those of all of it.
pub proof fn law_counted_in_parts(t: Totals, a: Seq<u8>, b: Seq<u8>)
    requires
        plain(a),
        plain(b),
        a.len() > 0,
        b.len() > 0,
    ensures
        t.count(a).count(b) == t.count(a + b),
        t.count(a).bytes == t.bytes + a.len(),
        t.count(a).lines == t.lines + newlines(a),
        t.count(a).inside == !is_space(a.last()),
{
    assert(plain(a + b)) by {
        assert forall|i: int| 0 <= i < (a + b).len() implies 0 < #[trigger] (a + b)[i] < 0x80 by {
            if i < a.len() {
                assert((a + b)[i] == a[i]);
            } else {
                assert((a + b)[i] == b[i - a.len()]);
            }
        }
    }
    lemma_plain(a);
    lemma_plain(b);
    lemma_plain(a + b);
    lemma_newlines_both(a, b);
    lemma_ends(a, false);
    lemma_ends(a, t.inside);
    lemma_ends(b, false);
    lemma_ends(a + b, false);
    assert((a + b).last() == b.last());
    law_words_in_parts(a, b, t.inside);
}

proof fn lemma_newlines_both(a: Seq<u8>, b: Seq<u8>)
    ensures
        newlines(a + b) == newlines(a) + newlines(b),
    decreases b.len(),
{
    if b.len() == 0 {
        assert(a + b =~= a);
    } else {
        lemma_newlines_both(a, b.drop_last());
        assert((a + b).drop_last() =~= a + b.drop_last());
    }
}

/// Listing a directory: each entry that is in use is looked at under its path in the directory and
/// shown with its name on a line of its own, and then the next one is read. What was opened for it is
/// closed.
pub proof fn law_entry_listed(
    path: Seq<u8>,
    fd: u64,
    read: Reply,
    opened: Reply,
    told: Reply,
    printed: Reply,
    closed: Reply,
)
    requires
        read.ok && opened.ok && told.ok,
        read.bytes@.len() == ENTRY_SIZE,
        read.bytes@[0] != 0 || read.bytes@[1] != 0,
        joined(path, until_zero(read.bytes@.skip(2))).len() <= MAXPATH,
        valid_utf8(until_zero(read.bytes@.skip(2))),
        valid_utf8(until_zero(joined(path, until_zero(read.bytes@.skip(2))))),
    ensures
        ({
            let name = until_zero(read.bytes@.skip(2));
            let s0 = Job::Reading(fd);
            let s1 = s0.next(path, read);
            let s2 = s1.next(path, opened);
            let s3 = s2.next(path, told);
            let s4 = s3.next(path, printed);
            &&& s0.act(path) == Act::Read(fd)
            &&& s1.act(path) == Act::Open(until_zero(joined(path, name)))
            &&& s2.act(path) == Act::Stat(opened.fd)
            &&& s3.act(path) == Act::Print(shown(told.stat, name))
            &&& s4.act(path) == Act::Close(opened.fd)
            &&& s4.next(path, closed) == s0
        }),
{
}

/// An entry that is not in use is passed over, and at the end of the directory the listing ends.
pub proof fn law_listing_ends(path: Seq<u8>, fd: u64, read: Reply, closed: Reply)
    ensures
        read.ok && read.bytes@.len() == ENTRY_SIZE && read.bytes@[0] == 0 && read.bytes@[1] == 0
            ==> Job::Reading(fd).next(path, read) == Job::Reading(fd),
        !read.ok || read.bytes@.len() != ENTRY_SIZE ==> Job::Reading(fd).next(path, read).act(path)
            == Act::Close(fd) && Job::Reading(fd).next(path, read).next(path, closed) == Job::Done,
{
}

/// A file that is no directory is shown on one line; a directory is read.
pub proof fn law_file_listed(path: Seq<u8>, opened: Reply, told: Reply)
    requires
        opened.ok && told.ok,
    ensures
        ({
            let s1 = Job::Start.next(path, opened);
            let s2 = s1.next(path, told);
            &&& Job::Start.act(path) == Act::Open(path)
            &&& s1.act(path) == Act::Stat(opened.fd)
            &&& told.stat.typ == InodeType::File || told.stat.typ == InodeType::Device ==> s2.act(
                path,
            ) == Act::Print(shown(told.stat, path)) && s2.next(path, told).act(path) == Act::Close(
                opened.fd,
            )
            &&& told.stat.typ == InodeType::Directory ==> s2.act(path) == Act::Read(opened.fd)
        }),
{
}

} // verus!
