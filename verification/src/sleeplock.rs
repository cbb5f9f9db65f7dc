//! Locks that make the caller sleep while it waits.
use vstd::prelude::*;

verus! {

/// Inner state of a `SleepLock`.
#[derive(Debug, Clone, Copy)]
pub struct SleepLockInner {
    pub locked: bool,
    /// The process that holds the lock.
    pub pid: Option<u64>,
}

/// A lock around a value.
///
/// The value stays in the lock while it is held; the holder works on the copy in its guard,
/// which `unlock` stores back.
#[derive(Debug)]
pub struct SleepLock<T> {
    pub name: &'static str,
    pub inner: SleepLockInner,
    pub data: T,
}

/// What the holder of a `SleepLock` works on.
#[derive(Debug)]
pub struct SleepLockGuard<T> {
    pub data: T,
}

impl<T: Copy> SleepLock<T> {
    /// A free lock around `value`.
    pub fn new(value: T, name: &'static str) -> (r: Self)
        ensures
            r.data == value,
            r.name == name,
            r.inner == (SleepLockInner { locked: false, pid: None }),
    {
        SleepLock { name, inner: SleepLockInner { locked: false, pid: None }, data: value }
    }

    /// Takes the lock for process `pid`. `None` says that it is held: the caller has to sleep
    /// on the lock's channel and try again.
    pub fn lock(&mut self, pid: u64) -> (r: Option<SleepLockGuard<T>>)
        ensures
            r is None <==> old(self).inner.locked,
            r is None ==> *final(self) == *old(self),
            r matches Some(guard) ==> guard.data == old(self).data && *final(self) == (SleepLock {
                inner: SleepLockInner { locked: true, pid: Some(pid) },
                ..*old(self)
            }),
    {
        if self.inner.locked {
            return None;
        }
        self.inner.locked = true;
        self.inner.pid = Some(pid);
        Some(SleepLockGuard { data: self.data })
    }

    /// Releases the lock, storing the guard's value. Whoever sleeps on the lock's channel is to
    /// be woken up.
    pub fn unlock(&mut self, guard: SleepLockGuard<T>)
        ensures
            *final(self) == (SleepLock {
                inner: SleepLockInner { locked: false, pid: None },
                data: guard.data,
                ..*old(self)
            }),
    {
        self.data = guard.data;
        self.inner.locked = false;
        self.inner.pid = None;
    }
}

} // verus!
