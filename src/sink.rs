//! The per-request store of observed lengths, shared between a body and the
//! operation that completes the request.
use std::sync::{Arc, Mutex};
use vstd::prelude::*;

verus! {

#[verifier::external_type_specification]
#[verifier::external_body]
#[verifier::reject_recursive_types(T)]
pub struct ExMutex<T: ?Sized>(Mutex<T>);

pub assume_specification<T>[ Mutex::<T>::new ](t: T) -> Mutex<T>;

/// Observed lengths of one request: appended while its body is read, read once
/// when it completes.
pub type SharedLengths = Arc<Mutex<Vec<u32>>>;

/// A fresh, empty store for one request.
pub fn new_sink() -> SharedLengths {
    Arc::new(Mutex::new(Vec::new()))
}

/// Relies on `Arc::clone`: the result is a second handle to the same store.
#[verifier::external_body]
pub(crate) fn share(sink: &SharedLengths) -> (r: SharedLengths)
    ensures
        r == *sink,
{
    Arc::clone(sink)
}

/// Relies on `Mutex::lock` and `Vec::extend_from_slice`: appends `lengths` in
/// order while holding the lock. A lock poisoned by a panic elsewhere is still
/// written rather than refused. As `Mutex::lock` documents, a thread that
/// already holds this lock must not call this: it may deadlock or panic.
#[verifier::external_body]
pub(crate) fn append_lengths(sink: &SharedLengths, lengths: &[u32]) {
    let mut guard = match sink.lock() {
        Ok(g) => g,
        Err(poisoned) => poisoned.into_inner(),
    };
    guard.extend_from_slice(lengths);
}

/// Relies on `Mutex::lock` and `Vec::clone`: a copy of what the store holds now,
/// taken while holding the lock (a poisoned lock is still read). What it holds
/// depends on every handle, so nothing is stated of it. As with
/// `append_lengths`, a thread that already holds this lock must not call this.
#[verifier::external_body]
pub(crate) fn snapshot(sink: &SharedLengths) -> Vec<u32> {
    let guard = match sink.lock() {
        Ok(g) => g,
        Err(poisoned) => poisoned.into_inner(),
    };
    guard.clone()
}

} // verus!
