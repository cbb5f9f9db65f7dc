//! Pipes: byte queues between processes.
use vstd::prelude::*;
use crate::abi::SysError;
use crate::kalloc::{zero_page, Kmem};
use crate::proc::{copy_from_user, copy_to_user, Channel, ProcData};
use crate::riscv::PGSIZE;
use crate::vm::usermem::UPAGES;
use crate::vm::bytes::law_copy_from_bytes;
use crate::vm::uvm::kmem_ok;
use crate::vm::{UserMem, VA};

verus! {

/// How many bytes a pipe holds
pub const PIPESIZE: usize = 512;

/// How far a call got that may have to wait.
#[derive(Debug, Clone, Copy, PartialEq, Eq)]
pub enum Progress {
    /// It is done, with the given result.
    Done(Result<u64, SysError>),
    /// The process has to sleep on the channel. When it is woken up the call goes on after the
    /// given number of bytes.
    Sleep(u64, Channel),
}

/// A pipe, as its users see it.
#[verifier::ext_equal]
pub struct PipeState {
    /// The bytes that were written and not read yet, in order.
    pub queue: Seq<u8>,
    /// Read end is still open
    pub read_open: bool,
    /// Write end is still open
    pub write_open: bool,
}

/// Inner state of a pipe
#[derive(Debug)]
pub struct PipeInner {
    /// Pipe data buffer
    data: [u8; PIPESIZE],
    /// Number of bytes read
    num_read: u64,
    /// Number of bytes written
    num_write: u64,
    /// Read fd is still open
    read_open: bool,
    /// Write fd is still open
    write_open: bool,
}

/// Represents a pipe for inter-process communication
#[derive(Debug)]
pub struct Pipe {
    inner: PipeInner,
    /// The page that the pipe is in, which identifies it
    id: u64,
}

impl View for Pipe {
    type V = PipeState;

    closed spec fn view(&self) -> PipeState {
        PipeState {
            queue: Seq::new(
                (self.inner.num_write - self.inner.num_read) as nat,
                |i: int| self.inner.data@[(self.inner.num_read + i) % (PIPESIZE as int)],
            ),
            read_open: self.inner.read_open,
            write_open: self.inner.write_open,
        }
    }
}

impl PipeState {
    /// Writing the bytes of the process from `addr + i` up to `addr + n`: stops when the pipe is
    /// full, and ends early where the memory cannot be read. Says also whether readers are to be
    /// woken up. `None` where an address overflows or is reserved.
    pub open spec fn write(
        self,
        m: UserMem,
        size: int,
        addr: int,
        n: int,
        i: int,
        killed: bool,
        id: u64,
    ) -> Option<(PipeState, UserMem, Progress, bool)>
        decreases n - i,
    {
        if i >= n {
            Some((self, m, Progress::Done(Ok(i as u64)), true))
        } else if killed {
            Some((self, m, Progress::Done(Err(SysError::Interrupted)), false))
        } else if !self.read_open {
            Some((self, m, Progress::Done(Err(SysError::BrokenPipe)), false))
        } else if self.queue.len() >= PIPESIZE {
            Some((self, m, Progress::Sleep(i as u64, Channel::PipeWrite(id)), true))
        } else if addr + i > u64::MAX {
            None
        } else {
            match m.copy_from(size, addr + i, 1, seq![]) {
                None => None,
                Some((m, Err(e))) => Some((self, m, Progress::Done(Ok(i as u64)), true)),
                Some((m, Ok(bytes))) => PipeState { queue: self.queue + bytes, ..self }.write(
                    m,
                    size,
                    addr,
                    n,
                    i + 1,
                    killed,
                    id,
                ),
            }
        }
    }

    /// Reading up to `n - i` bytes to `addr + i`, as many as there are. `None` where an address
    /// overflows or is reserved.
    pub open spec fn read_bytes(self, m: UserMem, size: int, addr: int, n: int, i: int) -> Option<
        (PipeState, UserMem, Result<u64, SysError>),
    >
        decreases n - i,
    {
        if i >= n || self.queue.len() == 0 {
            Some((self, m, Ok(i as u64)))
        } else if addr + i > u64::MAX {
            None
        } else {
            match m.put_byte(size, addr + i, self.queue[0]) {
                None => None,
                Some((m, Err(e))) => Some((self, m, Err(SysError::BadAddress))),
                Some((m, Ok(()))) => PipeState { queue: self.queue.skip(1), ..self }.read_bytes(
                    m,
                    size,
                    addr,
                    n,
                    i + 1,
                ),
            }
        }
    }

    /// Reading up to `n` bytes to `addr`: waits for bytes while there are none and the write end
    /// is open. Says also whether writers are to be woken up.
    pub open spec fn read(
        self,
        m: UserMem,
        size: int,
        addr: int,
        n: int,
        killed: bool,
        id: u64,
    ) -> Option<(PipeState, UserMem, Progress, bool)> {
        if self.queue.len() == 0 && self.write_open {
            if killed {
                Some((self, m, Progress::Done(Err(SysError::Interrupted)), false))
            } else {
                Some((self, m, Progress::Sleep(0, Channel::PipeRead(id)), false))
            }
        } else {
            match self.read_bytes(m, size, addr, n, 0) {
                None => None,
                Some((p, m, r)) => Some((p, m, Progress::Done(r), r is Ok)),
            }
        }
    }

    /// Closing an end.
    pub open spec fn close(self, writeable: bool) -> PipeState {
        if writeable {
            PipeState { write_open: false, ..self }
        } else {
            PipeState { read_open: false, ..self }
        }
    }
}

impl Pipe {
    /// The counters are in order, and stay within two rounds of the buffer.
    pub closed spec fn wf(self) -> bool {
        &&& self.inner.num_read <= self.inner.num_write <= self.inner.num_read + PIPESIZE
        &&& self.inner.num_write <= 2 * PIPESIZE
    }

    /// The page that the pipe is in.
    pub closed spec fn page(self) -> u64 {
        self.id
    }

    /// A new pipe in the page `id`, with both ends open.
    pub fn new(id: u64) -> (r: Self)
        ensures
            r.wf(),
            r@ == (PipeState { queue: seq![], read_open: true, write_open: true }),
            r.page() == id,
    {
        let r = Pipe {
            inner: PipeInner {
                data: [0u8;PIPESIZE],
                num_read: 0,
                num_write: 0,
                read_open: true,
                write_open: true,
            },
            id,
        };
        assert(r@.queue =~= seq![]);
        r
    }

    /// Returns the page of the pipe as pipe id.
    /// It will be unique and constant for the life time of this pipe.
    pub fn pipe_id(&self) -> (r: u64)
        ensures
            r == self.page(),
    {
        self.id
    }

    /// Whether both ends are closed.
    pub fn is_closed(&self) -> (r: bool)
        ensures
            r == (!self@.read_open && !self@.write_open),
    {
        !self.inner.read_open && !self.inner.write_open
    }

    /// Closes the pipe's read or write end. Whoever sleeps on the channel returned is to be woken
    /// up.
    pub fn close(&mut self, writeable: bool) -> (r: Channel)
        requires
            old(self).wf(),
        ensures
            final(self).wf(),
            final(self)@ == old(self)@.close(writeable),
            final(self).page() == old(self).page(),
            r == (if writeable {
                Channel::PipeRead(old(self).page())
            } else {
                Channel::PipeWrite(old(self).page())
            }),
    {
        if writeable {
            self.inner.write_open = false;
            assert(self@.queue =~= old(self)@.queue);
            Channel::PipeRead(self.id)
        } else {
            self.inner.read_open = false;
            assert(self@.queue =~= old(self)@.queue);
            Channel::PipeWrite(self.id)
        }
    }

    /// Adds a byte, for which there is room.
    fn push(&mut self, b: u8)
        requires
            old(self).wf(),
            old(self)@.queue.len() < PIPESIZE,
        ensures
            final(self).wf(),
            final(self)@ == (PipeState { queue: old(self)@.queue.push(b), ..old(self)@ }),
            final(self).page() == old(self).page(),
    {
        if self.inner.num_read >= PIPESIZE as u64 {
            self.inner.num_read = self.inner.num_read - PIPESIZE as u64;
            self.inner.num_write = self.inner.num_write - PIPESIZE as u64;
        }
        assert(self@.queue =~= old(self)@.queue);
        let ghost mid = *self;
        let index = (self.inner.num_write % PIPESIZE as u64) as usize;
        self.inner.data[index] = b;
        self.inner.num_write = self.inner.num_write + 1;
        proof {
            let r0 = mid.inner.num_read as int;
            let w0 = mid.inner.num_write as int;
            assert(self@.queue =~= mid@.queue.push(b)) by {
                assert forall|i: int| 0 <= i < w0 - r0 implies self@.queue[i] == mid@.queue[i] by {
                    assert((r0 + i) % (PIPESIZE as int) != w0 % (PIPESIZE as int)) by {
                        lemma_ring(r0 + i, w0);
                    }
                }
            }
        }
    }

    /// Takes the oldest byte.
    fn pop(&mut self)
        requires
            old(self).wf(),
            old(self)@.queue.len() > 0,
        ensures
            final(self).wf(),
            final(self)@ == (PipeState { queue: old(self)@.queue.skip(1), ..old(self)@ }),
            final(self).page() == old(self).page(),
    {
        self.inner.num_read = self.inner.num_read + 1;
        assert(self@.queue =~= old(self)@.queue.skip(1));
    }

    /// Writes to the pipe from the user space: the bytes from `addr + done` up to `addr + n`.
    /// Returns how far it got, and whether readers are to be woken up.
    pub fn write(
        &mut self,
        data: &mut ProcData,
        kmem: &mut Kmem,
        addr: VA,
        n: u64,
        done: u64,
        killed: bool,
    ) -> (r: (Progress, bool))
        requires
            old(self).wf(),
            old(kmem).wf(),
            old(data).ready(old(kmem)@),
            old(self)@.write(
                old(data).mem(old(kmem)@),
                old(data).size as int,
                addr.0 as int,
                n as int,
                done as int,
                killed,
                old(self).page(),
            ) is Some,
        ensures
            final(self).wf(),
            final(kmem).wf(),
            final(self).page() == old(self).page(),
            old(data).touched(old(kmem)@, *final(data), final(kmem)@),
            Some((final(self)@, final(data).mem(final(kmem)@), r.0, r.1)) == old(self)@.write(
                old(data).mem(old(kmem)@),
                old(data).size as int,
                addr.0 as int,
                n as int,
                done as int,
                killed,
                old(self).page(),
            ),
    {
        let ghost d0 = *data;
        let ghost k0 = kmem@;
        let ghost id = self.page();
        let ghost want = self@.write(
            data.mem(k0),
            data.size as int,
            addr.0 as int,
            n as int,
            done as int,
            killed,
            id,
        );
        let mut i: u64 = done;
        proof {
            kmem.lemma_wf();
            data.lemma_touched_refl(k0);
        }
        while i < n
            invariant
                d0 == *old(data),
                k0 == old(kmem)@,
                kmem_ok(k0),
                d0.ready(k0),
                self.wf(),
                self.page() == id,
                id == old(self).page(),
                kmem.wf(),
                data.ready(kmem@),
                d0.touched(k0, *data, kmem@),
                i <= n || i == done,
                done <= i,
                    want is Some,
                want == old(self)@.write(
                    d0.mem(k0),
                    d0.size as int,
                    addr.0 as int,
                    n as int,
                    done as int,
                    killed,
                    id,
                ),
                want == self@.write(
                    data.mem(kmem@),
                    d0.size as int,
                    addr.0 as int,
                    n as int,
                    i as int,
                    killed,
                    id,
                ),
            decreases n - i,
        {
            if killed {
                return (Progress::Done(Err(SysError::Interrupted)), false);
            }
            if !self.inner.read_open {
                return (Progress::Done(Err(SysError::BrokenPipe)), false);
            }
            if self.inner.num_write - self.inner.num_read == PIPESIZE as u64 {
                return (Progress::Sleep(i, Channel::PipeWrite(self.id)), true);
            }
            let ghost d1 = *data;
            let ghost k1 = kmem@;
            proof {
                kmem.lemma_wf();
            }
            let mut ch: Vec<u8> = Vec::new();
            assert(ch@ =~= seq![]);
            let copied = copy_from_user(data, kmem, VA(addr.0 + i), &mut ch, 1);
            proof {
                kmem.lemma_wf();
                d0.lemma_touched_trans(k0, d1, k1, *data, kmem@);
            }
            if copied.is_err() {
                return (Progress::Done(Ok(i)), true);
            }
            proof {
                assert(ch@.len() == 1);
                assert(self@.queue.push(ch@[0]) =~= self@.queue + ch@);
            }
            self.push(ch[0]);
            i = i + 1;
        }
        (Progress::Done(Ok(i)), true)
    }

    /// Reads from the pipe into the user space. Returns how far it got, and whether writers are to
    /// be woken up.
    pub fn read(&mut self, data: &mut ProcData, kmem: &mut Kmem, addr: VA, n: u64, killed: bool) -> (r: (
        Progress,
        bool,
    ))
        requires
            old(self).wf(),
            old(kmem).wf(),
            old(data).ready(old(kmem)@),
            old(self)@.read(
                old(data).mem(old(kmem)@),
                old(data).size as int,
                addr.0 as int,
                n as int,
                killed,
                old(self).page(),
            ) is Some,
        ensures
            final(self).wf(),
            final(kmem).wf(),
            final(self).page() == old(self).page(),
            old(data).touched(old(kmem)@, *final(data), final(kmem)@),
            Some((final(self)@, final(data).mem(final(kmem)@), r.0, r.1)) == old(self)@.read(
                old(data).mem(old(kmem)@),
                old(data).size as int,
                addr.0 as int,
                n as int,
                killed,
                old(self).page(),
            ),
    {
        let ghost d0 = *data;
        let ghost k0 = kmem@;
        proof {
            kmem.lemma_wf();
            data.lemma_touched_refl(k0);
        }
        if self.inner.num_read == self.inner.num_write && self.inner.write_open {
            if killed {
                return (Progress::Done(Err(SysError::Interrupted)), false);
            }
            return (Progress::Sleep(0, Channel::PipeRead(self.id)), false);
        }
        let ghost want = self@.read_bytes(data.mem(k0), data.size as int, addr.0 as int, n as int, 0);
        let mut i: u64 = 0;
        while i < n && self.inner.num_read != self.inner.num_write
            invariant
                d0 == *old(data),
                k0 == old(kmem)@,
                kmem_ok(k0),
                d0.ready(k0),
                self.wf(),
                self.page() == old(self).page(),
                kmem.wf(),
                data.ready(kmem@),
                d0.touched(k0, *data, kmem@),
                i <= n,
                want is Some,
                want == old(self)@.read_bytes(
                    d0.mem(k0),
                    d0.size as int,
                    addr.0 as int,
                    n as int,
                    0,
                ),
                !(old(self)@.queue.len() == 0 && old(self)@.write_open),
                want == self@.read_bytes(
                    data.mem(kmem@),
                    d0.size as int,
                    addr.0 as int,
                    n as int,
                    i as int,
                ),
            decreases n - i,
        {
            let ghost d1 = *data;
            let ghost k1 = kmem@;
            proof {
                kmem.lemma_wf();
                reveal(UserMem::put_byte);
            }
            let ch: [u8; 1] = [self.inner.data[(self.inner.num_read % PIPESIZE as u64) as usize]];
            assert(ch@ =~= seq![self@.queue[0]]);
            let copied = copy_to_user(data, kmem, &ch, VA(addr.0 + i));
            proof {
                kmem.lemma_wf();
                d0.lemma_touched_trans(k0, d1, k1, *data, kmem@);
            }
            if copied.is_err() {
                return (Progress::Done(Err(SysError::BadAddress)), false);
            }
            self.pop();
            i = i + 1;
        }
        (Progress::Done(Ok(i)), true)
    }
}

/// Places of the ring that are less than its size apart are different.
proof fn lemma_ring(a: int, b: int)
    requires
        0 <= a < b < a + PIPESIZE,
    ensures
        a % (PIPESIZE as int) != b % (PIPESIZE as int),
{
}

/// A pipe is first in, first out: a write, done or not, has added at the end of the queue the bytes
/// of the process from `addr + i` on, as many as it counts, and closed nothing. It changed no byte of
/// the process. It stops before the end only at a byte that the process cannot read, and waits only
/// when the pipe is full. Readers are woken up.
pub proof fn law_pipe_write_appends(
    p: PipeState,
    m: UserMem,
    size: int,
    addr: int,
    n: int,
    i: int,
    killed: bool,
    id: u64,
)
    requires
        0 <= addr,
        0 <= i,
        p.write(m, size, addr, n, i, killed, id) is Some,
        m.whole(),
        n <= u64::MAX,
        i <= n,
        p.queue.len() <= PIPESIZE,
    ensures
        ({
            let (q, m1, progress, wake) = p.write(m, size, addr, n, i, killed, id)->0;
            let added = q.queue.len() - p.queue.len();
            &&& q.read_open == p.read_open && q.write_open == p.write_open
            &&& 0 <= added && q.queue.len() <= PIPESIZE
            &&& q.queue.take(p.queue.len() as int) == p.queue
            &&& m1.shows(addr + i, q.queue.skip(p.queue.len() as int))
            &&& m.same_bytes(m1)
            &&& match progress {
                Progress::Done(Ok(k)) => added == k - i && k <= n && wake && (k < n
                    ==> !m1.can_read(addr + k)),
                Progress::Sleep(k, c) => added == k - i && k < n && q.queue.len() == PIPESIZE && c
                    == Channel::PipeWrite(id) && !killed && p.read_open && wake,
                Progress::Done(Err(e)) => added == 0 && q == p && i < n && e == (if killed {
                    SysError::Interrupted
                } else {
                    SysError::BrokenPipe
                }) && (killed || !p.read_open),
            }
        }),
    decreases n - i,
{
    if i < n && !killed && p.read_open && p.queue.len() < PIPESIZE {
        m.lemma_take_byte(size, addr + i);
        match m.copy_from(size, addr + i, 1, seq![])->0 {
            (m1, Ok(bytes)) => {
                let q = PipeState { queue: p.queue + bytes, ..p };
                assert(bytes.len() == 1 && q.queue.len() == p.queue.len() + 1);
                law_pipe_write_appends(q, m1, size, addr, n, i + 1, killed, id);
                let (r, m2, _, _) = p.write(m, size, addr, n, i, killed, id)->0;
                assert(r.queue.take(p.queue.len() as int) =~= r.queue.take(
                    q.queue.len() as int,
                ).take(p.queue.len() as int));
                assert(q.queue.take(p.queue.len() as int) =~= p.queue);
                assert(r.queue.take(q.queue.len() as int)[p.queue.len() as int] == m1.byte(addr + i));
                assert(m1.pages.contains_key((addr + i) / (PGSIZE as int)));
                m2.lemma_shows(addr + i, m1.byte(addr + i), r.queue.skip(q.queue.len() as int));
                assert(r.queue.skip(p.queue.len() as int) =~= seq![m1.byte(addr + i)]
                    + r.queue.skip(q.queue.len() as int));
                assert(m.same_bytes(m2)) by {
                    assert forall|x: int| #[trigger]
                        m2.pages.contains_key(x) && !m.pages.contains_key(x) implies m2.pages[x].data
                        == zero_page() by {
                        assert(m1.pages.contains_key(x) || !m1.pages.contains_key(x));
                    }
                }
            },
            (m1, Err(_)) => {
                assert(p.queue.take(p.queue.len() as int) =~= p.queue);
                law_copy_from_bytes(m, size, addr + i, 1, seq![]);
            },
        }
    } else {
        assert(p.queue.take(p.queue.len() as int) =~= p.queue);
    }
}

/// A read waits while the pipe is empty and can still be written, unless the process was killed. Else
/// it is done at once, with as many bytes as there are and were asked for, and writers are woken up.
pub proof fn law_pipe_read(p: PipeState, m: UserMem, size: int, addr: int, n: int, killed: bool, id: u64)
    requires
        0 <= addr,
        0 <= n <= u64::MAX,
        m.whole(),
        p.read(m, size, addr, n, killed, id) is Some,
    ensures
        ({
            let (q, m1, progress, wake) = p.read(m, size, addr, n, killed, id)->0;
            let k = if n < p.queue.len() {
                n
            } else {
                p.queue.len() as int
            };
            if p.queue.len() == 0 && p.write_open {
                &&& q == p && m1 == m && !wake
                &&& progress == (if killed {
                    Progress::Done(Err::<u64, SysError>(SysError::Interrupted))
                } else {
                    Progress::Sleep(0, Channel::PipeRead(id))
                })
            } else {
                ||| progress == Progress::Done(Ok::<u64, SysError>(k as u64)) && wake && q.queue
                    == p.queue.skip(k) && m1.shows(addr, p.queue.take(k))
                ||| progress == Progress::Done(Err::<u64, SysError>(SysError::BadAddress)) && !wake
            }
        }),
{
    law_pipe_read_front(p, m, size, addr, n, 0);
}

/// A read takes bytes from the front of the queue, as many as it counts, and puts them at
/// `addr + i` in the memory of the process, where no other byte changes. This holds of those that it
/// took before an error, too.
pub proof fn law_pipe_read_front(p: PipeState, m: UserMem, size: int, addr: int, n: int, i: int)
    requires
        0 <= addr,
        0 <= i <= n,
        n <= u64::MAX,
        m.whole(),
        p.read_bytes(m, size, addr, n, i) is Some,
    ensures
        ({
            let (q, m1, r) = p.read_bytes(m, size, addr, n, i)->0;
            let taken = p.queue.len() - q.queue.len();
            &&& q.read_open == p.read_open && q.write_open == p.write_open
            &&& 0 <= taken <= n - i
            &&& q.queue == p.queue.skip(taken)
            &&& m1.shows(addr + i, p.queue.take(taken))
            &&& forall|a: int|
                0 <= a && !(addr + i <= a < addr + i + taken) && a / (PGSIZE as int) < UPAGES
                    && #[trigger] m.at(a) ==> m1.at(a) && m1.byte(a) == m.byte(a)
            &&& m1.whole()
            &&& match r {
                Ok(k) => taken == k - i && taken == (if n - i < p.queue.len() {
                    n - i
                } else {
                    p.queue.len() as int
                }),
                Err(e) => e == SysError::BadAddress,
            }
        }),
    decreases n - i,
{
    if i < n && p.queue.len() > 0 {
        m.lemma_put_byte(size, addr + i, p.queue[0]);
        let (m1, put) = m.put_byte(size, addr + i, p.queue[0])->0;
        if put is Ok {
            let q = PipeState { queue: p.queue.skip(1), ..p };
            law_pipe_read_front(q, m1, size, addr, n, i + 1);
            let (t, m2, r) = p.read_bytes(m, size, addr, n, i)->0;
            let taken = p.queue.len() - t.queue.len();
            assert(q.queue.skip(taken - 1) =~= p.queue.skip(taken));
            assert((addr + i) / (PGSIZE as int) < UPAGES) by {
                m.lemma_put_below(size, addr + i, p.queue[0]);
            }
            assert(m1.at(addr + i));
            assert(m2.byte(addr + i) == p.queue[0]);
            m2.lemma_shows(addr + i, p.queue[0], q.queue.take(taken - 1));
            assert(p.queue.take(taken) =~= seq![p.queue[0]] + q.queue.take(taken - 1));
            assert forall|a: int|
                0 <= a && !(addr + i <= a < addr + i + taken) && a / (PGSIZE as int) < UPAGES
                    && #[trigger] m.at(a) implies m2.at(a) && m2.byte(a) == m.byte(a) by {
                assert(m1.at(a));
                assert(m1.byte(a) == m.byte(a));
            }
        } else {
            assert(p.queue.skip(0) =~= p.queue);
            assert forall|a: int| #[trigger] m.at(a) implies m1.at(a) && m1.byte(a) == m.byte(a) by {
                assert(m.pages.contains_key(a / (PGSIZE as int)));
            }
        }
    } else {
        assert(p.queue.skip(0) =~= p.queue);
    }
}

/// Reading an empty pipe whose write end is closed ends at once with nothing; so does one that was
/// closed while bytes were left, after they have been read.
pub proof fn law_pipe_end_of_file(p: PipeState, m: UserMem, size: int, addr: int, n: int, killed: bool, id: u64)
    requires
        p.queue.len() == 0,
        !p.write_open,
    ensures
        p.read(m, size, addr, n, killed, id) == Some(
            (p, m, Progress::Done(Ok::<u64, SysError>(0)), true),
        ),
{
}

/// Writing to a pipe whose read end is closed is an error.
pub proof fn law_broken_pipe(p: PipeState, m: UserMem, size: int, addr: int, n: int, id: u64)
    requires
        !p.read_open,
        0 < n,
    ensures
        p.write(m, size, addr, n, 0, false, id) == Some(
            (p, m, Progress::Done(Err::<u64, SysError>(SysError::BrokenPipe)), false),
        ),
{
}

} // verus!
