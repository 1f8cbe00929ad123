//! A page-oriented storage layer: fixed-size 4096-byte pages over a single
//! backing byte medium, with a persisted usage-statistics header.
//!
//! The first page-sized region of the medium is reserved for a textual
//! header that records the four usage counters; logical page `i` lives at
//! byte offset `(i + 1) * 4096`. Reads and writes are bounded by the page
//! count; append is the only operation that grows the store.

pub mod buf;
pub mod disk;
pub mod error;
pub mod header;
pub mod layout;
pub mod store;
