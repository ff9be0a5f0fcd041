//! Observing the lengths of length-prefixed frames in a chunked request body.
//!
//! A frame is a five-byte header (one flag byte, then a big-endian `u32`
//! length) followed by that many payload bytes. The parser here follows such a
//! stream across arbitrary chunk boundaries and records each declared length.
pub mod body;
pub mod completion;
pub mod parser;
pub mod sink;
pub mod stage;
