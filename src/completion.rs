//! What a request reports about its frames when its operation completes.
use crate::sink::{snapshot, SharedLengths};
use vstd::prelude::*;

verus! {

/// How one poll of the wrapped operation came out.
#[derive(Clone, Copy, Debug, PartialEq, Eq)]
pub enum Outcome {
    Pending,
    Succeeded,
    Failed,
}

/// The report for a request that succeeded with `sizes` observed: the lengths
/// themselves, or nothing when no frame was seen.
pub fn report_of(sizes: Vec<u32>) -> (r: Option<Vec<u32>>)
    ensures
        r == (if sizes@.len() > 0 {
            Some(sizes)
        } else {
            None
        }),
{
    if sizes.len() > 0 {
        Some(sizes)
    } else {
        None
    }
}

/// The report due after a poll that came out as `outcome`. The store is read
/// only on success; a pending or failed operation reports nothing.
pub fn report_on(message_sizes: &SharedLengths, outcome: Outcome) -> (r: Option<Vec<u32>>)
    ensures
        outcome != Outcome::Succeeded ==> r is None,
        r is Some ==> r->0@.len() > 0,
{
    match outcome {
        Outcome::Succeeded => report_of(snapshot(message_sizes)),
        _ => None,
    }
}

/// An operation of the next stage, with the store of its request.
pub struct PayloadSizeFuture<F> {
    pub inner: F,
    pub message_sizes: SharedLengths,
}

impl<F> PayloadSizeFuture<F> {
    /// Binds `inner` to the store of the request it serves.
    pub fn new(inner: F, message_sizes: SharedLengths) -> (r: Self)
        ensures
            r.inner == inner,
            r.message_sizes == message_sizes,
    {
        PayloadSizeFuture { inner, message_sizes }
    }

    /// The report due after a poll of `inner` that came out as `outcome`.
    pub fn report(&self, outcome: Outcome) -> (r: Option<Vec<u32>>)
        ensures
            outcome != Outcome::Succeeded ==> r is None,
            r is Some ==> r->0@.len() > 0,
    {
        report_on(&self.message_sizes, outcome)
    }

    /// The operation and the store.
    pub fn into_parts(self) -> (r: (F, SharedLengths))
        ensures
            r == (self.inner, self.message_sizes),
    {
        (self.inner, self.message_sizes)
    }
}

} // verus!
