//! A line is cut into tokens with nothing lost but white space.
use vstd::prelude::*;
use crate::user::sh::parse::{
    append,
    is_word,
    lemma_skip_space,
    skip_space,
    special,
    token_end,
    tokens,
    word_end,
};
use crate::user::text::space_len;

verus! {

/// What `s` holds from `i` on, without white space.
pub open spec fn squeezed(s: Seq<u8>, i: int) -> Seq<u8>
    decreases s.len() - i,
{
    if 0 <= i < s.len() {
        if space_len(s.skip(i)) > 0 {
            squeezed(s, i + space_len(s.skip(i)))
        } else {
            seq![s[i]] + squeezed(s, i + 1)
        }
    } else {
        seq![]
    }
}

/// The tokens one after the other.
pub open spec fn joined(t: Seq<Seq<u8>>) -> Seq<u8>
    decreases t.len(),
{
    if t.len() == 0 {
        seq![]
    } else {
        t[0] + joined(t.skip(1))
    }
}

/// Where the first `k` tokens from `i` on end.
pub open spec fn cut(s: Seq<u8>, i: int, k: int) -> int
    decreases k,
{
    if k <= 0 {
        i
    } else {
        cut(s, token_end(s, skip_space(s, i)), k - 1)
    }
}

/// One of the tokens that are not words.
pub open spec fn is_operator(t: Seq<u8>) -> bool {
    (t.len() == 1 && special(t[0])) || t == append()
}

/// There is no white space in `t`.
pub open spec fn solid(t: Seq<u8>) -> bool {
    forall|j: int| 0 <= j < t.len() ==> space_len(#[trigger] t.skip(j)) == 0
}

/// No byte of `t` is a token by itself or starts one.
pub open spec fn ordinary(t: Seq<u8>) -> bool {
    forall|j: int| 0 <= j < t.len() ==> !special(#[trigger] t[j])
}

/// What is no white space in `s` is none in a part of it.
proof fn lemma_part(s: Seq<u8>, a: int, b: int, j: int)
    requires
        0 <= a <= b <= s.len(),
        0 <= j < b - a,
        space_len(s.skip(a + j)) == 0,
    ensures
        space_len(s.subrange(a, b).skip(j)) == 0,
{
    let t = s.subrange(a, b).skip(j);
    let u = s.skip(a + j);
    assert(forall|m: int| 0 <= m < t.len() ==> t[m] == u[m]);
    assert(t.len() <= u.len());
}

/// A word goes up to white space, a special byte or the end.
proof fn lemma_word(s: Seq<u8>, i: int)
    requires
        0 <= i <= s.len(),
    ensures
        i <= word_end(s, i) <= s.len(),
        forall|j: int|
            i <= j < word_end(s, i) ==> space_len(#[trigger] s.skip(j)) == 0 && !special(s[j]),
        word_end(s, i) < s.len() ==> space_len(s.skip(word_end(s, i))) > 0 || special(
            s[word_end(s, i)],
        ),
    decreases s.len() - i,
{
    if i < s.len() && space_len(s.skip(i)) == 0 && !special(s[i]) {
        lemma_word(s, i + 1);
    }
}

/// White space is left out of what is squeezed.
proof fn lemma_squeezed_space(s: Seq<u8>, i: int)
    requires
        0 <= i <= s.len(),
    ensures
        squeezed(s, i) == squeezed(s, skip_space(s, i)),
    decreases s.len() - i,
{
    if i < s.len() && space_len(s.skip(i)) > 0 {
        lemma_squeezed_space(s, i + space_len(s.skip(i)));
    }
}

/// All else is kept.
proof fn lemma_squeezed_part(s: Seq<u8>, a: int, b: int)
    requires
        0 <= a <= b <= s.len(),
        forall|j: int| a <= j < b ==> space_len(#[trigger] s.skip(j)) == 0,
    ensures
        squeezed(s, a) == s.subrange(a, b) + squeezed(s, b),
    decreases b - a,
{
    if a < b {
        lemma_squeezed_part(s, a + 1, b);
        assert(space_len(s.skip(a)) == 0);
        assert(s.subrange(a, b) =~= seq![s[a]] + s.subrange(a + 1, b));
        assert(squeezed(s, a) =~= s.subrange(a, b) + squeezed(s, b));
    } else {
        assert(squeezed(s, a) =~= s.subrange(a, b) + squeezed(s, b));
    }
}

/// What a single token is.
proof fn lemma_token(s: Seq<u8>, i: int)
    requires
        0 <= i < s.len(),
        space_len(s.skip(i)) == 0,
    ensures
        ({
            let end = token_end(s, i);
            let t = s.subrange(i, end);
            &&& i < end <= s.len()
            &&& solid(t)
            &&& forall|j: int| i <= j < end ==> space_len(#[trigger] s.skip(j)) == 0
            &&& is_operator(t) != ordinary(t)
            &&& is_word(t) == ordinary(t)
            &&& is_word(t) && end < s.len() ==> space_len(s.skip(end)) > 0 || special(s[end])
            &&& t == seq![0x3eu8] && end < s.len() ==> s[end] != 0x3e
        }),
{
    lemma_word(s, i + 1);
    let end = token_end(s, i);
    let t = s.subrange(i, end);
    assert(t[0] == s[i]);
    assert forall|j: int| i <= j < end implies space_len(#[trigger] s.skip(j)) == 0 by {
        if j > i && special(s[i]) {
            assert(s.skip(j)[0] == s[j]);
            assert(s[j] == 0x3e);
        }
    }
    assert forall|j: int| 0 <= j < t.len() implies space_len(#[trigger] t.skip(j)) == 0 by {
        assert(space_len(s.skip(i + j)) == 0);
        lemma_part(s, i, end, j);
    }
    if special(s[i]) {
        if s[i] == 0x3e && i + 1 < s.len() && s[i + 1] == 0x3e {
            assert(t =~= append());
        }
        assert(!ordinary(t));
    } else {
        assert(append()[0] == 0x3e);
        assert forall|j: int| 0 <= j < t.len() implies !special(#[trigger] t[j]) by {
            if j > 0 {
                let m = i + j;
                assert(end == word_end(s, i + 1));
                assert(i + 1 <= m < word_end(s, i + 1));
                assert(space_len(s.skip(m)) == 0);
            }
        }
        assert(!is_operator(t));
    }
}

/// The tokens of a line from `i` on: none is empty, none holds white space, each is either an
/// operator or made of ordinary bytes, and one after the other they are the line without its
/// white space.
pub proof fn law_tokens(s: Seq<u8>, i: int)
    requires
        0 <= i <= s.len(),
    ensures
        joined(tokens(s, i)) == squeezed(s, i),
        forall|k: int|
            0 <= k < tokens(s, i).len() ==> {
                let t = #[trigger] tokens(s, i)[k];
                &&& t.len() > 0
                &&& solid(t)
                &&& is_operator(t) != ordinary(t)
                &&& is_word(t) == ordinary(t)
            },
    decreases s.len() - i,
{
    lemma_skip_space(s, i);
    lemma_squeezed_space(s, i);
    let start = skip_space(s, i);
    if start < s.len() {
        lemma_token(s, start);
        let end = token_end(s, start);
        law_tokens(s, end);
        let t = s.subrange(start, end);
        lemma_squeezed_part(s, start, end);
        assert(tokens(s, i) == seq![t] + tokens(s, end));
        assert(tokens(s, i).skip(1) =~= tokens(s, end));
        assert forall|k: int| 0 <= k < tokens(s, i).len() implies ({
            let t = #[trigger] tokens(s, i)[k];
            &&& t.len() > 0
            &&& solid(t)
            &&& is_operator(t) != ordinary(t)
            &&& is_word(t) == ordinary(t)
        }) by {
            if k > 0 {
                assert(tokens(s, i)[k] == tokens(s, end)[k - 1]);
            }
        }
    } else {
        assert(tokens(s, i) =~= seq![]);
    }
}

/// Each token stands between two cuts of the line, behind white space. No token ends before it
/// must: two words have white space between them, and `>` is not cut off another `>`.
pub proof fn law_tokens_longest(s: Seq<u8>, i: int, k: int)
    requires
        0 <= i <= s.len(),
        0 <= k < tokens(s, i).len(),
    ensures
        ({
            let t = tokens(s, i);
            let start = skip_space(s, cut(s, i, k));
            let end = cut(s, i, k + 1);
            &&& i <= cut(s, i, k) <= start < end <= s.len()
            &&& t[k] == s.subrange(start, end)
            &&& is_word(t[k]) && k + 1 < t.len() && is_word(t[k + 1]) ==> skip_space(s, end) > end
            &&& t[k] == seq![0x3eu8] && end < s.len() ==> s[end] != 0x3e
        }),
    decreases k,
{
    lemma_skip_space(s, i);
    let start = skip_space(s, i);
    lemma_token(s, start);
    let end = token_end(s, start);
    let t = s.subrange(start, end);
    assert(tokens(s, i) == seq![t] + tokens(s, end));
    if k > 0 {
        law_tokens_longest(s, end, k - 1);
        assert(cut(s, i, k) == cut(s, end, k - 1));
        assert(cut(s, i, k + 1) == cut(s, end, k));
        assert(tokens(s, i)[k] == tokens(s, end)[k - 1]);
        if k + 1 < tokens(s, i).len() {
            assert(tokens(s, i)[k + 1] == tokens(s, end)[k]);
        }
    } else {
        assert(cut(s, i, 0) == i);
        assert(cut(s, i, 1) == cut(s, end, 0) == end);
        if 1 < tokens(s, i).len() {
            assert(tokens(s, i)[1] == tokens(s, end)[0]);
            lemma_skip_space(s, end);
            let next = skip_space(s, end);
            lemma_token(s, next);
            assert(tokens(s, end)[0] == s.subrange(next, token_end(s, next)));
            if is_word(t) && is_word(tokens(s, end)[0]) && next == end {
                assert(s.subrange(next, token_end(s, next))[0] == s[end]);
                assert(false);
            }
        }
    }
}

/// Where there is no token any more, none comes later.
pub proof fn law_no_more_tokens(s: Seq<u8>)
    ensures
        tokens(s, s.len() as int) == Seq::<Seq<u8>>::empty(),
{
    lemma_skip_space(s, s.len() as int);
}

} // verus!
