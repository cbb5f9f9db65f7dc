//! Text in bytes: where it is well-formed, and where there is white space in it.
use vstd::prelude::*;
use vstd::utf8::{
    is_continuation_byte,
    length_of_first_codepoint,
    pop_first_scalar,
    valid_first_scalar,
    valid_utf8,
};

verus! {

/// A character of two bytes: no encoding that is too long.
proof fn lemma_two(a: u8, b: u8)
    requires
        0xc0 <= a <= 0xdf,
        0x80 <= b <= 0xbf,
    ensures
        ({
            let c = (((a & 0x1f) as u32) << 6) | ((b & 0x3f) as u32);
            (0x80 <= c) == (a >= 0xc2) && c <= 0x7ff
        }),
{
    assert(({
        let c = (((a & 0x1f) as u32) << 6) | ((b & 0x3f) as u32);
        (0x80 <= c) == (a >= 0xc2) && c <= 0x7ff
    })) by (bit_vector)
        requires
            0xc0 <= a <= 0xdf,
            0x80 <= b <= 0xbf,
    ;
}

/// A character of three bytes: no encoding that is too long, and no half of a pair.
proof fn lemma_three(a: u8, b: u8, c: u8)
    requires
        0xe0 <= a <= 0xef,
        0x80 <= b <= 0xbf,
        0x80 <= c <= 0xbf,
    ensures
        ({
            let p = (((a & 0x0f) as u32) << 12) | (((b & 0x3f) as u32) << 6) | ((c & 0x3f) as u32);
            &&& (0x800 <= p) == (a != 0xe0 || b >= 0xa0)
            &&& (0xd800 <= p <= 0xdfff) == (a == 0xed && b >= 0xa0)
        }),
{
    assert(({
        let p = (((a & 0x0f) as u32) << 12) | (((b & 0x3f) as u32) << 6) | ((c & 0x3f) as u32);
        (0x800 <= p) == (a != 0xe0 || b >= 0xa0) && (0xd800 <= p <= 0xdfff) == (a == 0xed && b
            >= 0xa0)
    })) by (bit_vector)
        requires
            0xe0 <= a <= 0xef,
            0x80 <= b <= 0xbf,
            0x80 <= c <= 0xbf,
    ;
}

/// A character of four bytes: no encoding that is too long, and not beyond the last character.
proof fn lemma_four(a: u8, b: u8, c: u8, d: u8)
    requires
        0xf0 <= a <= 0xf7,
        0x80 <= b <= 0xbf,
        0x80 <= c <= 0xbf,
        0x80 <= d <= 0xbf,
    ensures
        ({
            let p = (((a & 0x07) as u32) << 18) | (((b & 0x3f) as u32) << 12) | (((c & 0x3f) as u32)
                << 6) | ((d & 0x3f) as u32);
            &&& (0x10000 <= p <= 0x10ffff) == ((a > 0xf0 || b >= 0x90) && (a < 0xf4 || (a == 0xf4
                && b < 0x90)))
            &&& 0x10000 <= p ==> !(0xd800 <= p <= 0xdfff)
        }),
{
    assert(({
        let p = (((a & 0x07) as u32) << 18) | (((b & 0x3f) as u32) << 12) | (((c & 0x3f) as u32)
            << 6) | ((d & 0x3f) as u32);
        (0x10000 <= p <= 0x10ffff) == ((a > 0xf0 || b >= 0x90) && (a < 0xf4 || (a == 0xf4 && b
            < 0x90)))
    })) by (bit_vector)
        requires
            0xf0 <= a <= 0xf7,
            0x80 <= b <= 0xbf,
            0x80 <= c <= 0xbf,
            0x80 <= d <= 0xbf,
    ;
}

/// Whether a byte can only stand inside of a character.
fn inner(b: u8) -> (r: bool)
    ensures
        r == is_continuation_byte(b),
{
    0x80 <= b && b <= 0xbf
}

/// The length of the character that starts at `i`, if it is well-formed.
fn char_len(s: &[u8], i: usize) -> (r: Option<usize>)
    requires
        i < s@.len(),
    ensures
        match r {
            Some(n) => {
                &&& valid_first_scalar(s@.skip(i as int))
                &&& n == length_of_first_codepoint(s@.skip(i as int))
                &&& 1 <= n <= 4
                &&& i + n <= s@.len()
            },
            None => !valid_first_scalar(s@.skip(i as int)),
        },
{
    let ghost t = s@.skip(i as int);
    let left = s.len() - i;
    let a = s[i];
    proof {
        assert(t[0] == a);
        assert(t.len() == left);
        if left >= 2 {
            assert(t[1] == s@[i + 1]);
        }
        if left >= 3 {
            assert(t[2] == s@[i + 2]);
        }
        if left >= 4 {
            assert(t[3] == s@[i + 3]);
        }
    }
    if a <= 0x7f {
        assert(a & 0x7f == a) by (bit_vector)
            requires
                a <= 0x7f,
        ;
        return Some(1);
    }
    if a < 0xc0 || a > 0xf7 {
        return None;
    }
    if a <= 0xdf {
        if left < 2 || !inner(s[i + 1]) {
            return None;
        }
        proof {
            lemma_two(a, t[1]);
        }
        if a < 0xc2 {
            return None;
        }
        return Some(2);
    }
    if a <= 0xef {
        if left < 3 || !inner(s[i + 1]) || !inner(s[i + 2]) {
            return None;
        }
        let b = s[i + 1];
        proof {
            lemma_three(a, t[1], t[2]);
        }
        if (a == 0xe0 && b < 0xa0) || (a == 0xed && b >= 0xa0) {
            return None;
        }
        return Some(3);
    }
    if left < 4 || !inner(s[i + 1]) || !inner(s[i + 2]) || !inner(s[i + 3]) {
        return None;
    }
    let b = s[i + 1];
    proof {
        lemma_four(a, t[1], t[2], t[3]);
    }
    if (a > 0xf0 || b >= 0x90) && (a < 0xf4 || (a == 0xf4 && b < 0x90)) {
        Some(4)
    } else {
        None
    }
}

/// Whether bytes are well-formed text.
pub fn is_utf8(s: &[u8]) -> (r: bool)
    ensures
        r == valid_utf8(s@),
{
    let mut i: usize = 0;
    assert(s@.skip(0) =~= s@);
    while i < s.len()
        invariant
            i <= s@.len(),
            valid_utf8(s@) == valid_utf8(s@.skip(i as int)),
        decreases s@.len() - i,
    {
        let ghost t = s@.skip(i as int);
        match char_len(s, i) {
            Some(n) => {
                assert(pop_first_scalar(t) =~= s@.skip(i + n));
                i += n;
            },
            None => {
                return false;
            },
        }
    }
    true
}

/// The length of the white space character that starts `s`: 0 if there is none.
pub open spec fn space_len(s: Seq<u8>) -> int {
    if s.len() == 0 {
        0
    } else if s[0] == 0x20 || 0x09 <= s[0] <= 0x0d {
        1
    } else if s.len() >= 2 && s[0] == 0xc2 && (s[1] == 0x85 || s[1] == 0xa0) {
        2
    } else if s.len() >= 3 && s[0] == 0xe1 && s[1] == 0x9a && s[2] == 0x80 {
        3
    } else if s.len() >= 3 && s[0] == 0xe2 && s[1] == 0x80 && (0x80 <= s[2] <= 0x8a || s[2] == 0xa8
        || s[2] == 0xa9 || s[2] == 0xaf) {
        3
    } else if s.len() >= 3 && s[0] == 0xe2 && s[1] == 0x81 && s[2] == 0x9f {
        3
    } else if s.len() >= 3 && s[0] == 0xe3 && s[1] == 0x80 && s[2] == 0x80 {
        3
    } else {
        0
    }
}

/// The length of the white space character at `i`: 0 if there is none.
pub fn space_at(s: &[u8], i: usize) -> (r: usize)
    requires
        i <= s@.len(),
    ensures
        r == space_len(s@.skip(i as int)),
        i + r <= s@.len(),
        r <= 3,
{
    let left = s.len() - i;
    let ghost t = s@.skip(i as int);
    assert(t.len() == left);
    if left == 0 {
        return 0;
    }
    let a = s[i];
    assert(t[0] == a);
    if a == 0x20 || (0x09 <= a && a <= 0x0d) {
        return 1;
    }
    if left < 2 {
        return 0;
    }
    let b = s[i + 1];
    assert(t[1] == b);
    if a == 0xc2 && (b == 0x85 || b == 0xa0) {
        return 2;
    }
    if left < 3 {
        return 0;
    }
    let c = s[i + 2];
    assert(t[2] == c);
    if a == 0xe1 && b == 0x9a && c == 0x80 {
        return 3;
    }
    if a == 0xe2 && b == 0x80 && ((0x80 <= c && c <= 0x8a) || c == 0xa8 || c == 0xa9 || c == 0xaf) {
        return 3;
    }
    if a == 0xe2 && b == 0x81 && c == 0x9f {
        return 3;
    }
    if a == 0xe3 && b == 0x80 && c == 0x80 {
        return 3;
    }
    0
}

/// The number `n` in decimal digits.
pub open spec fn decimal(n: nat) -> Seq<u8>
    decreases n,
{
    if n < 10 {
        seq![(0x30 + n) as u8]
    } else {
        decimal(n / 10).push((0x30 + n % 10) as u8)
    }
}

/// Appends the number `n` in decimal digits.
pub fn write_decimal(out: &mut Vec<u8>, n: u64)
    ensures
        final(out)@ == old(out)@ + decimal(n as nat),
    decreases n,
{
    if n < 10 {
        out.push(0x30 + n as u8);
    } else {
        write_decimal(out, n / 10);
        out.push(0x30 + (n % 10) as u8);
    }
    assert(out@ =~= old(out)@ + decimal(n as nat));
}

/// Different numbers are written differently: reading the digits gives the number.
pub proof fn law_decimal_value(n: nat)
    ensures
        value(decimal(n)) == n,
    decreases n,
{
    if n >= 10 {
        law_decimal_value(n / 10);
        assert(decimal(n).drop_last() =~= decimal(n / 10));
    } else {
        let none: Seq<u8> = seq![];
        assert(value(none) == 0);
        assert(decimal(n).drop_last() =~= none);
    }
}

/// The number that decimal digits stand for.
pub open spec fn value(s: Seq<u8>) -> int
    decreases s.len(),
{
    if s.len() == 0 {
        0
    } else {
        10 * value(s.drop_last()) + (s.last() - 0x30)
    }
}

/// The bytes up to the first zero.
pub open spec fn until_zero(s: Seq<u8>) -> Seq<u8>
    decreases s.len(),
{
    if s.len() == 0 || s[0] == 0 {
        seq![]
    } else {
        seq![s[0]] + until_zero(s.skip(1))
    }
}

/// The place of the first zero, or the length if there is none.
pub fn zero_at(s: &[u8]) -> (r: usize)
    ensures
        r <= s@.len(),
        s@.take(r as int) == until_zero(s@),
{
    let mut i: usize = 0;
    proof {
        assert(s@.skip(0) =~= s@);
        assert(s@.take(0) + until_zero(s@) =~= until_zero(s@));
    }
    while i < s.len()
        invariant
            i <= s@.len(),
            until_zero(s@) == s@.take(i as int) + until_zero(s@.skip(i as int)),
        decreases s@.len() - i,
    {
        let ghost t = s@.skip(i as int);
        assert(t[0] == s@[i as int]);
        if s[i] == 0 {
            assert(s@.take(i as int) + until_zero(t) =~= s@.take(i as int));
            return i;
        }
        proof {
            assert(t.skip(1) =~= s@.skip(i + 1));
            assert(s@.take(i as int) + (seq![t[0]] + until_zero(t.skip(1))) =~= s@.take(i + 1)
                + until_zero(s@.skip(i + 1)));
        }
        i += 1;
    }
    assert(s@.take(i as int) + until_zero(s@.skip(i as int)) =~= s@.take(i as int));
    i
}

} // verus!
