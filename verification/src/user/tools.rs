//! Small programs.
use vstd::prelude::*;
use crate::abi::SysError;
use crate::user::text::{decimal, law_decimal_value, value};

verus! {

/// Whether all bytes are decimal digits.
pub open spec fn digits(s: Seq<u8>) -> bool {
    forall|i: int| 0 <= i < s.len() ==> 0x30 <= #[trigger] s[i] <= 0x39
}

/// The digits of a number, behind its sign if there is one.
pub open spec fn unsigned(s: Seq<u8>) -> Seq<u8> {
    if s.len() > 1 && s[0] == 0x2b {
        s.skip(1)
    } else {
        s
    }
}

/// The number that a text stands for: decimal digits, maybe behind a plus sign.
pub open spec fn number(s: Seq<u8>) -> Option<u64> {
    let d = unsigned(s);
    if d.len() > 0 && digits(d) && value(d) <= u64::MAX {
        Some(value(d) as u64)
    } else {
        None
    }
}

/// The process ID that an argument of `kill` gives, if it is one.
pub fn parse_pid(s: &[u8]) -> (r: Option<u64>)
    ensures
        r == number(s@),
{
    let start: usize = if s.len() > 1 && s[0] == 0x2b {
        1
    } else {
        0
    };
    let ghost d = unsigned(s@);
    assert(d =~= s@.skip(start as int));
    if s.len() == 0 {
        return None;
    }
    let mut n: u64 = 0;
    let mut i = start;
    assert(d.take(0) =~= seq![]);
    while i < s.len()
        invariant
            start <= i <= s@.len(),
            d == s@.skip(start as int),
            d == unsigned(s@),
            digits(d.take(i - start)),
            n == value(d.take(i - start)),
        decreases s@.len() - i,
    {
        let c = s[i];
        let ghost k = i - start;
        assert(d[k] == c);
        assert(d.take(k + 1).drop_last() =~= d.take(k));
        assert(d.take(k + 1).last() == c);
        if c < 0x30 || c > 0x39 {
            return None;
        }
        let digit: u64 = c as u64 - 0x30;
        assert(value(d.take(k + 1)) == 10 * n + digit);
        if n > (u64::MAX - digit) / 10 {
            proof {
                lemma_value_grows(d, k + 1);
            }
            return None;
        }
        n = 10 * n + digit;
        i += 1;
        assert(digits(d.take(k + 1)));
    }
    assert(d.take(d.len() as int) =~= d);
    Some(n)
}

/// More digits never make a number smaller.
proof fn lemma_value_grows(d: Seq<u8>, k: int)
    requires
        0 <= k <= d.len(),
    ensures
        digits(d) ==> value(d.take(k)) <= value(d),
    decreases d.len() - k,
{
    if k == d.len() {
        assert(d.take(k) =~= d);
    } else if digits(d) {
        assert(d.take(k + 1).drop_last() =~= d.take(k));
        assert(0x30 <= d[k] <= 0x39);
        assert forall|i: int| 0 <= i < k implies 0x30 <= #[trigger] d.take(k)[i] <= 0x39 by {
            assert(d.take(k)[i] == d[i]);
        }
        lemma_value_positive(d.take(k));
        lemma_value_grows(d, k + 1);
    }
}

proof fn lemma_value_positive(d: Seq<u8>)
    requires
        digits(d),
    ensures
        value(d) >= 0,
    decreases d.len(),
{
    if d.len() > 0 {
        assert(0x30 <= d.last() <= 0x39);
        assert(digits(d.drop_last()));
        lemma_value_positive(d.drop_last());
    }
}

/// What copying a file to the output does with each reply to reading it.
#[derive(Debug, Clone, Copy, PartialEq, Eq, Structural)]
pub enum Copying {
    /// The file is at its end.
    Done,
    /// Write so many of the bytes that were read, and read on.
    Write(u64),
    /// Say that the file cannot be read, and exit with 1.
    Fail,
}

/// One step of copying a file to the output.
pub fn cat(read: Result<u64, SysError>) -> (r: Copying)
    ensures
        r == (match read {
            Ok(n) => if n == 0 {
                Copying::Done
            } else {
                Copying::Write(n)
            },
            Err(_) => Copying::Fail,
        }),
{
    match read {
        Ok(n) => {
            if n == 0 {
                Copying::Done
            } else {
                Copying::Write(n)
            }
        },
        Err(_) => Copying::Fail,
    }
}

/// A number that is written down is read as that number.
pub proof fn law_number(n: u64)
    ensures
        number(decimal(n as nat)) == Some(n),
{
    lemma_decimal_digits(n as nat);
    law_decimal_value(n as nat);
}

proof fn lemma_decimal_digits(n: nat)
    ensures
        decimal(n).len() > 0,
        digits(decimal(n)),
    decreases n,
{
    if n >= 10 {
        lemma_decimal_digits(n / 10);
    }
}

} // verus!
