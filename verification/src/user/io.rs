//! Reading and writing all of it.
use vstd::prelude::*;
use crate::abi::SysError;

verus! {

/// A call of `read`: how many bytes were asked for, and what came back.
pub type ReadCall = (usize, Result<Seq<u8>, SysError>);

/// A call of `write`: the bytes that were offered, and how many of them were accepted.
pub type WriteCall = (Seq<u8>, Result<usize, SysError>);

/// What the first `i` calls delivered, one after the other.
pub open spec fn delivered(calls: Seq<ReadCall>, i: int) -> Seq<u8>
    decreases i,
{
    if i <= 0 {
        seq![]
    } else {
        delivered(calls, i - 1) + match calls[i - 1].1 {
            Ok(bytes) => bytes,
            Err(_) => seq![],
        }
    }
}

/// How many bytes the first `i` calls accepted.
pub open spec fn accepted(calls: Seq<WriteCall>, i: int) -> int
    decreases i,
{
    if i <= 0 {
        0
    } else {
        accepted(calls, i - 1) + match calls[i - 1].1 {
            Ok(n) => n as int,
            Err(_) => 0,
        }
    }
}

/// Call `i` asks for what is still missing of `n` bytes, and something came of it unless it is the
/// last.
pub open spec fn asks_rest(calls: Seq<ReadCall>, n: int, i: int) -> bool {
    &&& calls[i].0 == n - delivered(calls, i).len()
    &&& delivered(calls, i).len() < n
    &&& i < calls.len() - 1 ==> calls[i].1 is Ok && calls[i].1->Ok_0.len() > 0
}

/// The calls by which exactly `n` bytes are read, as far as they go.
#[verifier::opaque]
pub open spec fn reads_rest(calls: Seq<ReadCall>, n: int) -> bool {
    forall|i: int| 0 <= i < calls.len() ==> #[trigger] asks_rest(calls, n, i)
}

/// Call `i` offers what was not accepted yet of `buf`, and some of it was accepted unless it is the
/// last.
pub open spec fn offers_rest(calls: Seq<WriteCall>, buf: Seq<u8>, i: int) -> bool {
    &&& 0 <= accepted(calls, i) < buf.len()
    &&& calls[i].0 == buf.skip(accepted(calls, i))
    &&& i < calls.len() - 1 ==> calls[i].1 is Ok
}

/// The calls by which all of `buf` is written, as far as they go.
#[verifier::opaque]
pub open spec fn writes_rest(calls: Seq<WriteCall>, buf: Seq<u8>) -> bool {
    forall|i: int| 0 <= i < calls.len() ==> #[trigger] offers_rest(calls, buf, i)
}

/// More calls behind them change nothing about the first ones.
proof fn lemma_delivered(a: Seq<ReadCall>, b: Seq<ReadCall>, i: int)
    requires
        a.is_prefix_of(b),
        i <= a.len(),
    ensures
        delivered(a, i) == delivered(b, i),
    decreases i,
{
    if i > 0 {
        lemma_delivered(a, b, i - 1);
        assert(a[i - 1] == b[i - 1]);
    }
}

proof fn lemma_accepted(a: Seq<WriteCall>, b: Seq<WriteCall>, i: int)
    requires
        a.is_prefix_of(b),
        i <= a.len(),
    ensures
        accepted(a, i) == accepted(b, i),
    decreases i,
{
    if i > 0 {
        lemma_accepted(a, b, i - 1);
        assert(a[i - 1] == b[i - 1]);
    }
}

/// One more call for what is still missing.
proof fn lemma_read_step(c0: Seq<ReadCall>, n: int, call: ReadCall)
    requires
        reads_rest(c0, n),
        c0.len() > 0 ==> c0.last().1 is Ok && c0.last().1->Ok_0.len() > 0,
        delivered(c0, c0.len() as int).len() < n,
        call.0 == n - delivered(c0, c0.len() as int).len(),
    ensures
        reads_rest(c0.push(call), n),
        delivered(c0.push(call), c0.len() as int) == delivered(c0, c0.len() as int),
{
    reveal(reads_rest);
    let calls = c0.push(call);
    assert forall|i: int| 0 <= i < calls.len() implies #[trigger] asks_rest(calls, n, i) by {
        lemma_delivered(c0, calls, i);
        if i < c0.len() {
            assert(asks_rest(c0, n, i));
            assert(calls[i] == c0[i]);
        }
    }
    lemma_delivered(c0, calls, c0.len() as int);
}

/// One more call for what was not accepted yet.
proof fn lemma_write_step(c0: Seq<WriteCall>, buf: Seq<u8>, call: WriteCall)
    requires
        writes_rest(c0, buf),
        c0.len() > 0 ==> c0.last().1 is Ok,
        0 <= accepted(c0, c0.len() as int) < buf.len(),
        call.0 == buf.skip(accepted(c0, c0.len() as int)),
    ensures
        writes_rest(c0.push(call), buf),
        accepted(c0.push(call), c0.len() as int) == accepted(c0, c0.len() as int),
{
    reveal(writes_rest);
    let calls = c0.push(call);
    assert forall|i: int| 0 <= i < calls.len() implies #[trigger] offers_rest(calls, buf, i) by {
        lemma_accepted(c0, calls, i);
        if i < c0.len() {
            assert(offers_rest(c0, buf, i));
            assert(calls[i] == c0[i]);
        }
    }
    lemma_accepted(c0, calls, c0.len() as int);
}

/// Implemented by readable byte sources.
pub trait Read {
    /// The calls of `read` so far. A type whose `read` is verified gives its own.
    open spec fn reads(&self) -> Seq<ReadCall> {
        arbitrary()
    }

    /// Reads some bytes, at most `n`. None are read at the end.
    fn read(&mut self, n: usize) -> (r: Result<Vec<u8>, SysError>)
        ensures
            match r {
                Ok(bytes) => bytes@.len() <= n && final(self).reads() == old(self).reads().push(
                    (n, Ok(bytes@)),
                ),
                Err(e) => final(self).reads() == old(self).reads().push((n, Err(e))),
            },
    ;

    /// Reads exactly `n` bytes, retrying on short reads.
    /// Returns `SysError::IoError` if the end is reached before, and an error of `read` as it is.
    fn read_exact(&mut self, n: usize) -> (r: Result<Vec<u8>, SysError>)
        ensures
            old(self).reads().is_prefix_of(final(self).reads()),
            ({
                let calls = final(self).reads().skip(old(self).reads().len() as int);
                let all = calls.len() as int;
                &&& reads_rest(calls, n as int)
                &&& match r {
                    Ok(bytes) => {
                        &&& bytes@ == delivered(calls, all)
                        &&& bytes@.len() == n
                        &&& all > 0 ==> calls.last().1 is Ok && calls.last().1->Ok_0.len() > 0
                    },
                    Err(e) => all > 0 && (calls.last().1 == Err::<Seq<u8>, SysError>(e) || (
                    calls.last().1 == Ok::<Seq<u8>, SysError>(seq![]) && e == SysError::IoError)),
                }
            }),
    {
        let mut buf: Vec<u8> = Vec::new();
        let ghost before = self.reads();
        let ghost mut calls: Seq<ReadCall> = seq![];
        assert(before + calls =~= before);
        assert(reads_rest(calls, n as int)) by {
            reveal(reads_rest);
        }
        while buf.len() < n
            invariant
                buf@.len() <= n,
                before == old(self).reads(),
                self.reads() == before + calls,
                reads_rest(calls, n as int),
                buf@ == delivered(calls, calls.len() as int),
                calls.len() > 0 ==> calls.last().1 is Ok && calls.last().1->Ok_0.len() > 0,
            decreases n - buf@.len(),
        {
            let left = n - buf.len();
            let ghost c0 = calls;
            let result = self.read(left);
            proof {
                calls = c0.push(
                    (
                        left,
                        if result is Ok {
                            Ok(result->Ok_0@)
                        } else {
                            Err(result->Err_0)
                        },
                    ),
                );
                lemma_read_step(c0, n as int, calls.last());
                assert(self.reads() =~= before + calls);
                assert(self.reads().skip(before.len() as int) =~= calls);
            }
            match result {
                Ok(mut bytes) => {
                    if bytes.len() == 0 {
                        assert(bytes@ =~= seq![]);
                        return Err(SysError::IoError);
                    }
                    buf.append(&mut bytes);
                },
                Err(e) => {
                    return Err(e);
                },
            }
        }
        assert(self.reads().skip(before.len() as int) =~= calls);
        Ok(buf)
    }
}

/// Implemented by writable byte sinks.
pub trait Write {
    /// The calls of `write` so far. A type whose `write` is verified gives its own.
    open spec fn writes(&self) -> Seq<WriteCall> {
        arbitrary()
    }

    /// Writes some bytes from the start of `buf`, and at least one if there is one. Returns how
    /// many.
    fn write(&mut self, buf: &[u8]) -> (r: Result<usize, SysError>)
        ensures
            final(self).writes() == old(self).writes().push((buf@, r)),
            r matches Ok(n) ==> n <= buf@.len() && (buf@.len() > 0 ==> n > 0),
    ;

    /// Writes all of `buf`, retrying after partial writes. Returns an error of `write` as it is.
    fn write_all(&mut self, buf: &[u8]) -> (r: Result<(), SysError>)
        ensures
            old(self).writes().is_prefix_of(final(self).writes()),
            ({
                let calls = final(self).writes().skip(old(self).writes().len() as int);
                let all = calls.len() as int;
                &&& writes_rest(calls, buf@)
                &&& match r {
                    Ok(_) => accepted(calls, all) == buf@.len() && (all > 0 ==> calls.last().1 is Ok),
                    Err(e) => all > 0 && calls.last().1 == Err::<usize, SysError>(e),
                }
            }),
    {
        let ghost before = self.writes();
        let ghost mut calls: Seq<WriteCall> = seq![];
        let mut done: usize = 0;
        assert(before + calls =~= before);
        assert(writes_rest(calls, buf@)) by {
            reveal(writes_rest);
        }
        while done < buf.len()
            invariant
                done <= buf@.len(),
                before == old(self).writes(),
                self.writes() == before + calls,
                writes_rest(calls, buf@),
                done == accepted(calls, calls.len() as int),
                calls.len() > 0 ==> calls.last().1 is Ok,
            decreases buf@.len() - done,
        {
            let rest = vstd::slice::slice_subrange(buf, done, buf.len());
            let ghost c0 = calls;
            assert(rest@ =~= buf@.skip(done as int));
            let result = self.write(rest);
            proof {
                calls = c0.push((rest@, result));
                lemma_write_step(c0, buf@, (rest@, result));
                assert(self.writes() =~= before + calls);
                assert(self.writes().skip(before.len() as int) =~= calls);
            }
            match result {
                Ok(n) => {
                    done += n;
                },
                Err(e) => {
                    return Err(e);
                },
            }
        }
        assert(self.writes().skip(before.len() as int) =~= calls);
        Ok(())
    }
}

/// Input that is there already.
pub struct Stdin {
    bytes: Vec<u8>,
    at: usize,
    calls: Ghost<Seq<ReadCall>>,
}

impl Stdin {
    /// All of the input.
    pub closed spec fn all(self) -> Seq<u8> {
        self.bytes@
    }

    /// How much of it was read.
    pub closed spec fn at(self) -> int {
        self.at as int
    }

    /// No more is read than there is.
    #[verifier::type_invariant]
    spec fn inv(self) -> bool {
        self.at <= self.bytes@.len()
    }

    pub fn new(bytes: Vec<u8>) -> (r: Self)
        ensures
            r.all() == bytes@,
            r.at() == 0,
            r.reads() == Seq::<ReadCall>::empty(),
    {
        Stdin { bytes, at: 0, calls: Ghost(Seq::empty()) }
    }
}

/// How many bytes can be read when `n` are asked for and `left` are there.
pub open spec fn at_most(n: int, left: int) -> int {
    if n < left {
        n
    } else {
        left
    }
}

impl Read for Stdin {
    closed spec fn reads(&self) -> Seq<ReadCall> {
        self.calls@
    }

    fn read(&mut self, n: usize) -> (r: Result<Vec<u8>, SysError>)
        ensures
            final(self).all() == old(self).all(),
            0 <= old(self).at() <= old(self).all().len(),
            ({
                let count = at_most(n as int, old(self).all().len() - old(self).at());
                &&& r is Ok
                &&& final(self).at() == old(self).at() + count
                &&& r->Ok_0@ == old(self).all().subrange(old(self).at(), old(self).at() + count)
            }),
    {
        proof {
            use_type_invariant(&*self);
        }
        let left = self.bytes.len() - self.at;
        let count = if n < left {
            n
        } else {
            left
        };
        let mut out: Vec<u8> = Vec::new();
        out.extend_from_slice(
            vstd::slice::slice_subrange(self.bytes.as_slice(), self.at, self.at + count),
        );
        assert(out@ =~= self.bytes@.subrange(self.at as int, self.at + count));
        self.at = self.at + count;
        self.calls = Ghost(self.calls@.push((n, Ok(out@))));
        Ok(out)
    }
}

/// Output that is collected.
pub struct Stdout {
    bytes: Vec<u8>,
    calls: Ghost<Seq<WriteCall>>,
}

impl Stdout {
    /// What has been written.
    pub closed spec fn given(self) -> Seq<u8> {
        self.bytes@
    }

    pub fn new() -> (r: Self)
        ensures
            r.given() == Seq::<u8>::empty(),
            r.writes() == Seq::<WriteCall>::empty(),
    {
        Stdout { bytes: Vec::new(), calls: Ghost(Seq::empty()) }
    }

    /// What has been written.
    pub fn as_bytes(&self) -> (r: &[u8])
        ensures
            r@ == self.given(),
    {
        self.bytes.as_slice()
    }
}

impl Write for Stdout {
    closed spec fn writes(&self) -> Seq<WriteCall> {
        self.calls@
    }

    fn write(&mut self, buf: &[u8]) -> (r: Result<usize, SysError>)
        ensures
            r == Ok::<usize, SysError>(buf.len()),
            final(self).given() == old(self).given() + buf@,
    {
        self.bytes.extend_from_slice(buf);
        assert(self.bytes@ =~= old(self).bytes@ + buf@);
        let r: Result<usize, SysError> = Ok(buf.len());
        self.calls = Ghost(self.calls@.push((buf@, r)));
        r
    }
}

/// Messages that are collected.
pub struct Stderr {
    bytes: Vec<u8>,
    calls: Ghost<Seq<WriteCall>>,
}

impl Stderr {
    /// What has been written.
    pub closed spec fn given(self) -> Seq<u8> {
        self.bytes@
    }

    pub fn new() -> (r: Self)
        ensures
            r.given() == Seq::<u8>::empty(),
            r.writes() == Seq::<WriteCall>::empty(),
    {
        Stderr { bytes: Vec::new(), calls: Ghost(Seq::empty()) }
    }

    /// What has been written.
    pub fn as_bytes(&self) -> (r: &[u8])
        ensures
            r@ == self.given(),
    {
        self.bytes.as_slice()
    }
}

impl Write for Stderr {
    closed spec fn writes(&self) -> Seq<WriteCall> {
        self.calls@
    }

    fn write(&mut self, buf: &[u8]) -> (r: Result<usize, SysError>)
        ensures
            r == Ok::<usize, SysError>(buf.len()),
            final(self).given() == old(self).given() + buf@,
    {
        self.bytes.extend_from_slice(buf);
        assert(self.bytes@ =~= old(self).bytes@ + buf@);
        let r: Result<usize, SysError> = Ok(buf.len());
        self.calls = Ghost(self.calls@.push((buf@, r)));
        r
    }
}

} // verus!
