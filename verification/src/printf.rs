//! Printing: who may, and the message of a panic.
use vstd::prelude::*;

verus! {

/// Whether the system panics, and has done so.
#[derive(Debug, Clone, Copy, PartialEq, Eq, Structural)]
pub struct Printf {
    /// Set to true before the panic message is printed.
    pub panicking: bool,
    /// Set to true after the panic message has been printed.
    pub panicked: bool,
}

impl Printf {
    pub fn new() -> (r: Self)
        ensures
            r == (Printf { panicking: false, panicked: false }),
    {
        Printf { panicking: false, panicked: false }
    }

    pub fn is_panicking(&self) -> (r: bool)
        ensures
            r == self.panicking,
    {
        self.panicking
    }

    pub fn is_panicked(&self) -> (r: bool)
        ensures
            r == self.panicked,
    {
        self.panicked
    }
}

/// Buffer for the panic message, which is written at once when it is complete. What does not fit
/// is dropped.
#[derive(Debug)]
pub struct PanicBuffer<const N: usize> {
    data: [u8; N],
    len: usize,
}

impl<const N: usize> PanicBuffer<N> {
    /// The message so far.
    pub closed spec fn text(self) -> Seq<u8> {
        self.data@.take(self.len as int)
    }

    /// The message fits in the buffer.
    pub closed spec fn wf(self) -> bool {
        self.len <= N
    }

    pub fn new() -> (r: Self)
        ensures
            r.wf(),
            r.text() == Seq::<u8>::empty(),
    {
        let r = PanicBuffer { data: [0u8;N], len: 0 };
        assert(r.text() =~= Seq::empty());
        r
    }

    /// Appends as much of `s` as fits.
    pub fn write_bytes(&mut self, s: &[u8])
        requires
            old(self).wf(),
        ensures
            final(self).wf(),
            final(self).text() == (old(self).text() + s@).take(
                if old(self).text().len() + s@.len() < N {
                    (old(self).text().len() + s@.len()) as int
                } else {
                    N as int
                },
            ),
    {
        let space = N - self.len;
        let n = if s.len() < space {
            s.len()
        } else {
            space
        };
        let ghost before = self.text();
        let start = self.len;
        let mut i: usize = 0;
        while i < n
            invariant
                i <= n,
                n <= s@.len(),
                start + n <= N,
                self.len == start,
                before == old(self).text(),
                before.len() == start,
                self.data@.take(start + i) == before + s@.take(i as int),
            decreases n - i,
        {
            let ghost d0 = self.data@;
            self.data[start + i] = s[i];
            i += 1;
            proof {
                let now = before + s@.take(i as int);
                assert forall|j: int| 0 <= j < start + i implies self.data@.take(start + i)[j]
                    == now[j] by {
                    if j < start + i - 1 {
                        assert(d0.take(start + i - 1)[j] == (before + s@.take(i - 1))[j]);
                    }
                }
                assert(self.data@.take(start + i) =~= now);
            }
        }
        self.len = start + n;
        assert(self.text() =~= (before + s@).take(start + n));
    }

    /// The message.
    pub fn as_bytes(&self) -> (r: Vec<u8>)
        requires
            self.wf(),
        ensures
            r@ == self.text(),
    {
        let mut bytes: Vec<u8> = Vec::new();
        let mut i: usize = 0;
        while i < self.len
            invariant
                i <= self.len,
                self.len <= N,
                bytes@ == self.data@.take(i as int),
            decreases self.len - i,
        {
            bytes.push(self.data[i]);
            i += 1;
            assert(bytes@ =~= self.data@.take(i as int));
        }
        bytes
    }
}

} // verus!
