//! A single-user persistent key-value / record store.
//!
//! The store keeps an in-memory structure — a mapping from string keys to
//! byte values, or an ordered list of profile records — and persists it by
//! encoding the whole structure into one snapshot byte buffer.  Loading
//! tolerates a missing or corrupt snapshot by starting from an empty
//! structure; every mutation is followed by a full re-encode.

pub mod codec;
pub mod command;
pub mod profile;
pub mod snapshot;
pub mod store;
