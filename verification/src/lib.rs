//! A local credential cache: it keeps a short-lived authentication token and
//! the identity / permission metadata that came with it, mirrors that record
//! in memory for fast authorization checks, serializes it into a single
//! backing file slot, and expires it lazily on the next read.
//!
//! The cache itself never touches a disk or a clock: the backing file is a
//! modeled slot of text content plus an access mode, and every time-dependent
//! operation takes the current time (seconds since the epoch) as an argument.
//! A host wires the slot to a real file and the argument to a real clock.

pub mod cache;
pub mod codec;
pub mod laws;
pub mod record;
