//! A request body together with the parser that watches it.
use crate::parser::{fresh, run_state, ParseState};
use crate::sink::SharedLengths;
use vstd::prelude::*;

verus! {

/// A body, the store its frame lengths go to, and the parser state between chunks.
pub struct PayloadSizeExtractor<B> {
    pub inner: B,
    pub message_sizes: SharedLengths,
    pub state: ParseState,
}

impl<B> PayloadSizeExtractor<B> {
    /// Wraps `inner`, sending the lengths found in it to `message_sizes`.
    pub fn new(inner: B, message_sizes: SharedLengths) -> (r: Self)
        ensures
            r.inner == inner,
            r.message_sizes == message_sizes,
            r.state == fresh(),
    {
        PayloadSizeExtractor { inner, message_sizes, state: ParseState::default() }
    }

    /// Watches one data chunk of the body. The body itself is left as it is.
    pub fn observe(&mut self, data: &[u8])
        requires
            old(self).state.wf(),
        ensures
            final(self).inner == old(self).inner,
            final(self).message_sizes == old(self).message_sizes,
            final(self).state.wf(),
            final(self).state == run_state(old(self).state, data@),
            data@.len() == 0 ==> final(self).state == old(self).state,
    {
        self.state.parse(&self.message_sizes, data);
    }

    /// The body, the store and the parser state.
    pub fn into_parts(self) -> (r: (B, SharedLengths, ParseState))
        ensures
            r == (self.inner, self.message_sizes, self.state),
    {
        (self.inner, self.message_sizes, self.state)
    }

    /// Puts the parts of `into_parts` back together.
    pub fn from_parts(inner: B, message_sizes: SharedLengths, state: ParseState) -> (r: Self)
        ensures
            r.inner == inner,
            r.message_sizes == message_sizes,
            r.state == state,
    {
        PayloadSizeExtractor { inner, message_sizes, state }
    }
}

} // verus!
