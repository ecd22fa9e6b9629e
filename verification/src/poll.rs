//! Outcome of one attempt to make progress.
use vstd::prelude::*;

verus! {

/// Either a value, or a promise that the registered waker will be fired.
#[derive(Copy, Clone, Debug, PartialEq, Eq)]
pub enum Poll<T> {
    /// The value is there.
    Ready(T),
    /// Nothing yet.
    Pending,
}

} // verus!
