//! A value that is set once.
use vstd::prelude::*;

verus! {

/// Whether a `OnceLock` has its value.
#[derive(Debug, Clone, Copy, PartialEq, Eq, Structural)]
pub enum OnceLockState {
    Incomplete,
    Complete,
}

/// A cell that can be written only once.
#[derive(Debug)]
pub struct OnceLock<T> {
    state: OnceLockState,
    value: Option<T>,
}

impl<T> OnceLock<T> {
    /// The value, if it was set.
    pub closed spec fn value(self) -> Option<T> {
        self.value
    }

    /// The state says whether there is a value.
    #[verifier::type_invariant]
    spec fn inv(self) -> bool {
        self.state is Complete <==> self.value is Some
    }

    /// A cell without a value.
    pub fn new() -> (r: Self)
        ensures
            r.value() is None,
    {
        OnceLock { state: OnceLockState::Incomplete, value: None }
    }

    /// Whether the value was set.
    pub fn is_init(&self) -> (r: bool)
        ensures
            r == (self.value() is Some),
    {
        proof {
            use_type_invariant(self);
        }
        self.state == OnceLockState::Complete
    }

    /// Sets the value to what `f` returns, unless it was set before: then `f` is not called.
    /// `f` must not fail.
    pub fn initialize<F, E>(&mut self, f: F) where F: FnOnce() -> Result<T, E>
        requires
            old(self).value() is None ==> call_requires(f, ()) && forall|r: Result<T, E>|
                call_ensures(f, (), r) ==> r is Ok,
        ensures
            old(self).value() is Some ==> final(self).value() == old(self).value(),
            old(self).value() is None ==> final(self).value() is Some && exists|r: Result<T, E>| #[trigger]
                call_ensures(f, (), r) && final(self).value() == Some(r->Ok_0),
    {
        if !self.is_init() {
            let r = f();
            if let Ok(value) = r {
                *self = OnceLock { state: OnceLockState::Complete, value: Some(value) };
            }
        }
    }

    /// The value, if it was set.
    pub fn get(&self) -> (r: Option<&T>)
        ensures
            r is Some <==> self.value() is Some,
            r matches Some(v) ==> self.value() == Some(*v),
    {
        match &self.value {
            Some(v) => Some(v),
            None => None,
        }
    }
}

impl<T> Default for OnceLock<T> {
    fn default() -> (r: Self)
        ensures
            r.value() is None,
    {
        Self::new()
    }
}

} // verus!
