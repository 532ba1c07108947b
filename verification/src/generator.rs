//! Issues task identities from one atomic counter.
use crate::task::TaskId;
use std::sync::atomic::{AtomicUsize, Ordering};
use vstd::prelude::*;

verus! {

/// Atomic counter that produces unique `TaskId`s without any locking.
///
/// The counter starts at one, the root's identity being zero, and is read
/// and advanced in one step. Once it has gone through every value it
/// yields nothing more.
pub struct IdGenerator(AtomicUsize);

impl IdGenerator {
    /// A generator whose first identity is one.
    pub fn new() -> Self {
        Self(AtomicUsize::new(1))
    }

    /// The next identity, or `None` when the counter has run out. The
    /// value comes from a counter shared between threads; what is stated
    /// holds of whatever it held.
    pub fn next(&self) -> (r: Option<TaskId>)
        ensures
            r.is_some() ==> r.unwrap() != TaskId::root(),
    {
        let raw = self.0.fetch_add(1, Ordering::Relaxed);
        TaskId::checked(raw)
    }
}

impl Default for IdGenerator {
    fn default() -> Self {
        Self::new()
    }
}

} // verus!
