//! The arguments of a program.
use vstd::prelude::*;
use vstd::slice::slice_subrange;
use vstd::utf8::valid_utf8;
use crate::user::text::{is_utf8, until_zero, zero_at};

verus! {

/// Represents command-line arguments passed to the program.
#[derive(Debug)]
pub struct Args {
    argv: Vec<Vec<u8>>,
}

impl View for Args {
    type V = Seq<Seq<u8>>;

    closed spec fn view(&self) -> Seq<Seq<u8>> {
        self.argv@.map_values(|v: Vec<u8>| v@)
    }
}

/// What is left to see of the arguments: those from `current` up to `end`.
#[derive(Debug)]
pub struct ArgsIter<'a> {
    args: &'a Args,
    current: usize,
    end: usize,
}

/// Like `ArgsIter`, up to the first argument that is no text.
#[derive(Debug)]
pub struct ArgsStrIter<'a> {
    iter: ArgsIter<'a>,
}

impl Args {
    /// The given arguments, with the program name first.
    pub fn new(argv: Vec<Vec<u8>>) -> (r: Self)
        ensures
            r@ == argv@.map_values(|v: Vec<u8>| v@),
    {
        Args { argv }
    }

    /// Returns the number of command-line arguments, including the program name.
    pub fn len(&self) -> (r: usize)
        ensures
            r == self@.len(),
    {
        self.argv.len()
    }

    /// Returns the number of command-line arguments, excluding the program name.
    pub fn args_len(&self) -> (r: usize)
        ensures
            r == (if self@.len() == 0 {
                0
            } else {
                self@.len() - 1
            }),
    {
        if self.argv.len() == 0 {
            0
        } else {
            self.argv.len() - 1
        }
    }

    /// Gets the program name as a byte slice.
    pub fn program(&self) -> (r: Option<&[u8]>)
        ensures
            match r {
                Some(arg) => self@.len() > 0 && arg@ == self@[0],
                None => self@.len() == 0,
            },
    {
        self.get(0)
    }

    /// Gets the argument at the specified index as a byte slice.
    pub fn get(&self, index: usize) -> (r: Option<&[u8]>)
        ensures
            match r {
                Some(arg) => index < self@.len() && arg@ == self@[index as int],
                None => index >= self@.len(),
            },
    {
        if index >= self.argv.len() {
            return None;
        }
        Some(self.argv[index].as_slice())
    }

    /// Gets the argument at the specified index, if it is text.
    pub fn get_str(&self, index: usize) -> (r: Option<&[u8]>)
        ensures
            match r {
                Some(arg) => index < self@.len() && arg@ == self@[index as int] && valid_utf8(arg@),
                None => index >= self@.len() || !valid_utf8(self@[index as int]),
            },
    {
        match self.get(index) {
            Some(arg) => if is_utf8(arg) {
                Some(arg)
            } else {
                None
            },
            None => None,
        }
    }

    /// Iterates args, including the program name.
    pub fn iter(&self) -> (r: ArgsIter<'_>)
        ensures
            r.left() == self@,
    {
        let r = ArgsIter { args: self, current: 0, end: self.argv.len() };
        assert(r.left() =~= self@);
        r
    }

    /// Iterates args as text, including the program name.
    pub fn iter_as_str(&self) -> (r: ArgsStrIter<'_>)
        ensures
            r.left() == self@,
    {
        ArgsStrIter { iter: self.iter() }
    }

    /// Iterates args, excluding the program name.
    pub fn args(&self) -> (r: ArgsIter<'_>)
        ensures
            r.left() == (if self@.len() == 0 {
                Seq::<Seq<u8>>::empty()
            } else {
                self@.skip(1)
            }),
    {
        let end = self.argv.len();
        let r = ArgsIter { args: self, current: 1, end };
        assert(r.left() =~= if self@.len() == 0 {
            Seq::<Seq<u8>>::empty()
        } else {
            self@.skip(1)
        });
        r
    }

    /// Iterates args as text, excluding the program name.
    pub fn args_as_str(&self) -> (r: ArgsStrIter<'_>)
        ensures
            r.left() == (if self@.len() == 0 {
                Seq::<Seq<u8>>::empty()
            } else {
                self@.skip(1)
            }),
    {
        ArgsStrIter { iter: self.args() }
    }
}

impl<'a> ArgsIter<'a> {
    /// The arguments that are left.
    pub closed spec fn left(self) -> Seq<Seq<u8>> {
        if self.current < self.end && self.end <= self.args@.len() {
            self.args@.subrange(self.current as int, self.end as int)
        } else {
            seq![]
        }
    }

    /// The next argument, if there is one.
    pub fn next(&mut self) -> (r: Option<&'a [u8]>)
        ensures
            match r {
                Some(arg) => {
                    &&& old(self).left().len() > 0
                    &&& arg@ == old(self).left()[0]
                    &&& final(self).left() == old(self).left().skip(1)
                },
                None => old(self).left().len() == 0 && *final(self) == *old(self),
            },
    {
        if self.current >= self.end || self.end > self.args.len() {
            return None;
        }
        let arg = self.args.argv[self.current].as_slice();
        self.current = self.current + 1;
        assert(self.left() =~= old(self).left().skip(1));
        Some(arg)
    }
}

impl<'a> ArgsStrIter<'a> {
    /// The arguments that are left.
    pub closed spec fn left(self) -> Seq<Seq<u8>> {
        self.iter.left()
    }

    /// The next argument, if there is one and it is text.
    pub fn next(&mut self) -> (r: Option<&'a [u8]>)
        ensures
            old(self).left().len() == 0 ==> r is None && *final(self) == *old(self),
            old(self).left().len() > 0 ==> {
                &&& final(self).left() == old(self).left().skip(1)
                &&& match r {
                    Some(arg) => arg@ == old(self).left()[0] && valid_utf8(arg@),
                    None => !valid_utf8(old(self).left()[0]),
                }
            },
    {
        match self.iter.next() {
            Some(arg) => if is_utf8(arg) {
                Some(arg)
            } else {
                None
            },
            None => None,
        }
    }
}

/// The text in a buffer that ends with a zero byte, or with the buffer. `None` if it is no text.
pub fn str_from_cstr(cstr: &[u8]) -> (r: Option<&[u8]>)
    ensures
        match r {
            Some(s) => s@ == until_zero(cstr@) && valid_utf8(s@),
            None => !valid_utf8(until_zero(cstr@)),
        },
{
    let n = zero_at(cstr);
    let s = slice_subrange(cstr, 0, n);
    assert(s@ =~= cstr@.take(n as int));
    if is_utf8(s) {
        Some(s)
    } else {
        None
    }
}

} // verus!
