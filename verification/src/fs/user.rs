//! Reading and writing files from and to the memory of a process.
use vstd::prelude::*;
use vstd::slice::slice_subrange;
use crate::fs::inode::{chunk, put_bytes, Inode, InodeData, InodeInner};
use crate::fs::{FsError, SuperBlock, MAXFILE};
use crate::kalloc::Kmem;
use crate::le::splice;
use crate::log;
use crate::log::{Store, StoreState};
use crate::proc::{copy_from_user, copy_to_user, ProcData};
use crate::sleeplock::SleepLockGuard;
use crate::virtio_disk::{BlockId, BSIZE};
use crate::vm::uvm::kmem_ok;
use crate::vm::{UserMem, VA};

verus! {

impl StoreState {
    /// Reading the `n` bytes at `offset` of the file `d` to `dst`, after `done` bytes; ends early
    /// where a block cannot be mapped. `None` where a block is in use or memory is reserved.
    pub open spec fn read_bytes_user(
        self,
        sb: SuperBlock,
        dev: u32,
        d: InodeData,
        offset: int,
        n: int,
        done: int,
        m: UserMem,
        size: int,
        dst: int,
    ) -> Option<(StoreState, InodeData, UserMem, Result<u32, FsError>)>
        decreases n,
    {
        if n <= 0 {
            Some((self, d, m, Ok(done as u32)))
        } else {
            let o = offset % (BSIZE as int);
            let c = chunk(offset, n);
            match self.map_block(sb, dev, d, (offset / (BSIZE as int)) as u32) {
                None => None,
                Some((s, d, Err(e))) => Some((s, d, m, Ok(done as u32))),
                Some((s, d, Ok(addr))) => if !s.readable((dev, addr)) || dst > u64::MAX {
                    None
                } else {
                    match m.copy_to(size, dst, s.blocks[(dev, addr)].subrange(o, o + c)) {
                        None => None,
                        Some((m, Err(_))) => Some((s, d, m, Err(FsError::Read))),
                        Some((m, Ok(()))) => s.read_bytes_user(
                            sb,
                            dev,
                            d,
                            offset + c,
                            n - c,
                            done + c,
                            m,
                            size,
                            dst + c,
                        ),
                    }
                },
            }
        }
    }

    /// Reading `n` bytes at `offset` of the file `d` to `dst`: what is there up to the end of the
    /// file.
    pub open spec fn read_user(
        self,
        sb: SuperBlock,
        dev: u32,
        d: InodeData,
        offset: u32,
        n: u32,
        m: UserMem,
        size: int,
        dst: int,
    ) -> Option<(StoreState, InodeData, UserMem, Result<u32, FsError>)> {
        if offset > d.size || offset + n > u32::MAX {
            Some((self, d, m, Err(FsError::Read)))
        } else {
            let n = if offset + n > d.size {
                d.size - offset
            } else {
                n as int
            };
            self.read_bytes_user(sb, dev, d, offset as int, n, 0, m, size, dst)
        }
    }

    /// Writing `n` bytes from `src` at `offset` of the file `d`, block by block; gives the offset
    /// after the last byte written. Ends early where a block cannot be mapped or the memory cannot
    /// be read; `None` where a block is in use, the transaction has no room or memory is reserved.
    pub open spec fn write_bytes_user(
        self,
        sb: SuperBlock,
        dev: u32,
        d: InodeData,
        offset: int,
        n: int,
        m: UserMem,
        size: int,
        src: int,
    ) -> Option<(StoreState, InodeData, UserMem, int)>
        decreases n,
    {
        if n <= 0 {
            Some((self, d, m, offset))
        } else {
            let c = chunk(offset, n);
            match self.map_block(sb, dev, d, (offset / (BSIZE as int)) as u32) {
                None => None,
                Some((s, d, Err(e))) => Some((s, d, m, offset)),
                Some((s, d, Ok(addr))) => if !s.readable((dev, addr)) || src > u64::MAX {
                    None
                } else {
                    match m.copy_from(size, src, c, seq![]) {
                        None => None,
                        Some((m, Err(_))) => Some((s, d, m, offset)),
                        Some((m, Ok(bytes))) => if s.writable((dev, addr)) {
                            s.write(
                                (dev, addr),
                                splice(s.blocks[(dev, addr)], offset % (BSIZE as int), bytes),
                            ).write_bytes_user(sb, dev, d, offset + c, n - c, m, size, src + c)
                        } else {
                            None
                        },
                    }
                },
            }
        }
    }

    /// Writing `n` bytes from `src` at `offset` of the file `d`, whose inode is written too.
    pub open spec fn write_user(
        self,
        sb: SuperBlock,
        dev: u32,
        inum: u32,
        d: InodeData,
        offset: u32,
        n: u32,
        m: UserMem,
        size: int,
        src: int,
    ) -> Option<(StoreState, InodeData, UserMem, Result<u32, FsError>)> {
        if offset > d.size || offset + n > MAXFILE * BSIZE {
            Some((self, d, m, Err(FsError::Write)))
        } else {
            match self.write_bytes_user(sb, dev, d, offset as int, n as int, m, size, src) {
                None => None,
                Some((s, d, m, end)) => {
                    let d = InodeData {
                        size: if end > d.size {
                            end as u32
                        } else {
                            d.size
                        },
                        ..d
                    };
                    match s.update_inode(sb, dev, inum, d) {
                        None => None,
                        Some(s) => Some((s, d, m, Ok((end - offset) as u32))),
                    }
                },
            }
        }
    }
}

/// Copies `m` bytes at `o` of a block to user memory at `dst`. Returns whether that could be done.
fn copy_block(
    store: &mut Store,
    id: BlockId,
    o: u32,
    m: u32,
    data: &mut ProcData,
    kmem: &mut Kmem,
    dst: VA,
) -> (r: bool)
    requires
        old(store).wf(),
        old(store)@.readable(id),
        o + m <= BSIZE,
        old(kmem).wf(),
        old(data).ready(old(kmem)@),
        old(data).mem(old(kmem)@).copy_to(
            old(data).size as int,
            dst.0 as int,
            old(store)@.blocks[id].subrange(o as int, o + m),
        ) is Some,
    ensures
        final(store).wf(),
        final(store)@ == old(store)@,
        final(store).slots() == old(store).slots(),
        final(kmem).wf(),
        old(data).touched(old(kmem)@, *final(data), final(kmem)@),
        ({
            let (mem, result) = old(data).mem(old(kmem)@).copy_to(
                old(data).size as int,
                dst.0 as int,
                old(store)@.blocks[id].subrange(o as int, o + m),
            )->0;
            &&& final(data).mem(final(kmem)@) == mem
            &&& r == (result is Ok)
        }),
{
    let ghost s1 = *store;
    proof {
        store.lemma_total();
    }
    let buf = store.bread(id.0, id.1);
    let part = slice_subrange(buf.data(), o as usize, (o + m) as usize);
    let copied = copy_to_user(data, kmem, part, dst);
    store.brelse(buf);
    proof {
        assert(store@.held =~= s1@.held);
        assert(store@ =~= s1@);
        assert(store.slots() =~= s1.slots());
    }
    copied.is_ok()
}

impl Inode {
    /// Reads `n` bytes from the inode at `offset` to user memory at `dst`.
    pub fn read_user(
        &self,
        store: &mut Store,
        sb: &SuperBlock,
        inner: &mut SleepLockGuard<InodeInner>,
        offset: u32,
        data: &mut ProcData,
        kmem: &mut Kmem,
        dst: VA,
        n: u32,
    ) -> (r: Result<u32, FsError>)
        requires
            old(store).wf(),
            sb.in_range(),
            old(kmem).wf(),
            old(data).ready(old(kmem)@),
            old(store)@.read_user(
                *sb,
                self.dev,
                old(inner).data@,
                offset,
                n,
                old(data).mem(old(kmem)@),
                old(data).size as int,
                dst.0 as int,
            ) is Some,
        ensures
            final(store).wf(),
            final(store).slots() == old(store).slots(),
            r matches Ok(k) ==> k <= n && offset + k <= u32::MAX,
            final(kmem).wf(),
            old(data).touched(old(kmem)@, *final(data), final(kmem)@),
            Some((final(store)@, final(inner).data@, final(data).mem(final(kmem)@), r)) == old(
                store,
            )@.read_user(
                *sb,
                self.dev,
                old(inner).data@,
                offset,
                n,
                old(data).mem(old(kmem)@),
                old(data).size as int,
                dst.0 as int,
            ),
    {
        let ghost s0 = *store;
        let ghost d0 = *data;
        let ghost k0 = kmem@;
        let size = inner.data.size;
        let ghost asked = n;
        let mut n: u32 = n;
        proof {
            kmem.lemma_wf();
            data.lemma_touched_refl(k0);
        }
        if offset > size || offset.checked_add(n).is_none() {
            return Err(FsError::Read);
        }
        if offset + n > size {
            n = size - offset;
        }
        let mut total: u32 = 0;
        let mut failed = false;
        let ghost want = s0@.read_bytes_user(
            *sb,
            self.dev,
            inner.data@,
            offset as int,
            n as int,
            0,
            d0.mem(k0),
            d0.size as int,
            dst.0 as int,
        );
        while total < n
            invariant_except_break
                !failed,
                want == store@.read_bytes_user(
                    *sb,
                    self.dev,
                    inner.data@,
                    offset + total,
                    n - total,
                    total as int,
                    data.mem(kmem@),
                    d0.size as int,
                    dst.0 + total,
                ),
            invariant
                want is Some,
                total <= n,
                n <= asked,
                offset + n <= u32::MAX,
                store.wf(),
                store.slots() == s0.slots(),
                sb.in_range(),
                k0 == old(kmem)@,
                d0 == *old(data),
                kmem_ok(k0),
                d0.ready(k0),
                kmem.wf(),
                data.ready(kmem@),
                d0.touched(k0, *data, kmem@),
            ensures
                want == Some(
                    (
                        store@,
                        inner.data@,
                        data.mem(kmem@),
                        if failed {
                            Err::<u32, FsError>(FsError::Read)
                        } else {
                            Ok::<u32, FsError>(total)
                        },
                    ),
                ),
            decreases n - total,
        {
            let off = offset + total;
            match self.map(store, sb, inner, off / BSIZE as u32) {
                Ok(addr) => {
                    let ghost d1 = *data;
                    let ghost k1 = kmem@;
                    proof {
                        kmem.lemma_wf();
                    }
                    let o: u32 = off % BSIZE as u32;
                    let room: u32 = BSIZE as u32 - o;
                    let m: u32 = if n - total < room {
                        n - total
                    } else {
                        room
                    };
                    assert(m == chunk(off as int, n - total));
                    let to = VA(dst.0 + total as u64);
                    let copied = copy_block(store, (self.dev, addr), o, m, data, kmem, to);
                    proof {
                        d0.lemma_touched_trans(k0, d1, k1, *data, kmem@);
                    }
                    if !copied {
                        failed = true;
                        break;
                    }
                    total += m;
                },
                Err(_) => {
                    break;
                },
            }
        }
        if failed {
            return Err(FsError::Read);
        }
        Ok(total)
    }

    /// Writes `n` bytes from user memory at `src` to the inode at `offset`. Returns the number of
    /// bytes written, which is less than asked for where no block could be had or the memory could
    /// not be read.
    #[verifier::rlimit(40)]
    pub fn write_user(
        &self,
        store: &mut Store,
        sb: &SuperBlock,
        inner: &mut SleepLockGuard<InodeInner>,
        offset: u32,
        data: &mut ProcData,
        kmem: &mut Kmem,
        src: VA,
        n: u32,
    ) -> (r: Result<u32, FsError>)
        requires
            old(store).wf(),
            sb.in_range(),
            old(kmem).wf(),
            old(data).ready(old(kmem)@),
            old(store)@.write_user(
                *sb,
                self.dev,
                self.inum,
                old(inner).data@,
                offset,
                n,
                old(data).mem(old(kmem)@),
                old(data).size as int,
                src.0 as int,
            ) is Some,
        ensures
            final(store).wf(),
            final(store).slots() == old(store).slots(),
            r matches Ok(k) ==> k <= n && offset + k <= u32::MAX,
            final(kmem).wf(),
            old(data).touched(old(kmem)@, *final(data), final(kmem)@),
            Some((final(store)@, final(inner).data@, final(data).mem(final(kmem)@), r)) == old(
                store,
            )@.write_user(
                *sb,
                self.dev,
                self.inum,
                old(inner).data@,
                offset,
                n,
                old(data).mem(old(kmem)@),
                old(data).size as int,
                src.0 as int,
            ),
    {
        let ghost s0 = *store;
        let ghost d0 = *data;
        let ghost k0 = kmem@;
        proof {
            kmem.lemma_wf();
            data.lemma_touched_refl(k0);
        }
        if offset > inner.data.size || offset.checked_add(n).is_none() {
            return Err(FsError::Write);
        }
        if offset + n > (MAXFILE * BSIZE) as u32 {
            return Err(FsError::Write);
        }
        let mut total: u32 = 0;
        let ghost want = s0@.write_bytes_user(
            *sb,
            self.dev,
            inner.data@,
            offset as int,
            n as int,
            d0.mem(k0),
            d0.size as int,
            src.0 as int,
        );
        while total < n
            invariant_except_break
                want == store@.write_bytes_user(
                    *sb,
                    self.dev,
                    inner.data@,
                    offset + total,
                    n - total,
                    data.mem(kmem@),
                    d0.size as int,
                    src.0 + total,
                ),
            invariant
                want is Some,
                total <= n,
                offset + n <= u32::MAX,
                store.wf(),
                store.slots() == s0.slots(),
                sb.in_range(),
                k0 == old(kmem)@,
                d0 == *old(data),
                kmem_ok(k0),
                d0.ready(k0),
                kmem.wf(),
                data.ready(kmem@),
                d0.touched(k0, *data, kmem@),
            ensures
                want == Some((store@, inner.data@, data.mem(kmem@), offset + total)),
            decreases n - total,
        {
            let off = offset + total;
            match self.map(store, sb, inner, off / BSIZE as u32) {
                Ok(addr) => {
                    let ghost s1 = *store;
                    let ghost d1 = *data;
                    let ghost k1 = kmem@;
                    proof {
                        store.lemma_total();
                        kmem.lemma_wf();
                    }
                    let mut buf = store.bread(self.dev, addr);
                    let o: u32 = off % BSIZE as u32;
                    let room: u32 = BSIZE as u32 - o;
                    let m: u32 = if n - total < room {
                        n - total
                    } else {
                        room
                    };
                    assert(m == chunk(off as int, n - total));
                    let mut part: Vec<u8> = Vec::new();
                    assert(part@ =~= seq![]);
                    let copied = copy_from_user(
                        data,
                        kmem,
                        VA(src.0 + total as u64),
                        &mut part,
                        m as usize,
                    );
                    proof {
                        d0.lemma_touched_trans(k0, d1, k1, *data, kmem@);
                    }
                    if copied.is_err() {
                        store.brelse(buf);
                        proof {
                            assert(store@.held =~= s1@.held);
                            assert(store@ =~= s1@);
                            assert(store.slots() =~= s1.slots());
                        }
                        break;
                    }
                    put_bytes(buf.data_mut(), o as usize, &part, 0, m as usize);
                    assert(part@.subrange(0, m as int) =~= part@);
                    log::write(store, &buf);
                    store.brelse(buf);
                    proof {
                        assert(store@.held =~= s1@.held);
                        assert(store.slots() =~= s1.slots());
                    }
                    total += m;
                },
                Err(_) => {
                    break;
                },
            }
        }
        if offset + total > inner.data.size {
            inner.data.size = offset + total;
        }
        // write the inode back to disk even if the size didn't change because the loop above
        // might have called `map()` and added a new block to `addrs[]`.
        self.update(store, sb, inner);
        Ok(total)
    }
}

} // verus!
