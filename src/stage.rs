//! The middleware stage that puts a body watcher on every request.
use crate::body::PayloadSizeExtractor;
use crate::parser::fresh;
use crate::sink::{new_sink, share, SharedLengths};
use vstd::prelude::*;

verus! {

/// Builds a `PayloadSizeService` around a next stage.
#[derive(Clone, Copy, Debug)]
pub struct PayloadSizeLayer;

impl PayloadSizeLayer {
    /// Wraps `service`, unchanged, as the next stage.
    pub fn layer<S>(&self, service: S) -> (r: PayloadSizeService<S>)
        ensures
            r.inner == service,
    {
        PayloadSizeService { inner: service }
    }
}

/// A stage that watches the frames of each request body on its way to `inner`.
#[derive(Clone)]
pub struct PayloadSizeService<S> {
    pub inner: S,
}

/// Prepares the body of one request: a fresh, empty store, and the body
/// wrapped with a new parser that writes to it. The store is returned too, for
/// the operation that completes the request; nothing is kept across calls.
pub fn wrap_body<B>(body: B) -> (r: (PayloadSizeExtractor<B>, SharedLengths))
    ensures
        r.0.inner == body,
        r.0.message_sizes == r.1,
        r.0.state == fresh(),
{
    let message_sizes = new_sink();
    let body = PayloadSizeExtractor::new(body, share(&message_sizes));
    (body, message_sizes)
}

} // verus!
