//! A log-record pipeline: a binary wire codec with a content
//! fingerprint (`codec`), a request/reply server state machine that
//! acknowledges every message with the exact bytes received (`server`),
//! and a store with a dynamic filter engine over the recorded history
//! (`store`, `filter`), together with the parameterized relational form
//! of a filter (`sql`).
//!
//! Every operation's behaviour is stated in its contract and proved:
//! decoding inverts encoding, an empty filter matches the whole table,
//! fetches page in identifier order, distinct listings are sorted and
//! duplicate-free, and deletion removes exactly the matching rows.

pub mod bytes;
pub mod codec;
pub mod db;
pub mod filter;
pub mod server;
pub mod sql;
pub mod store;
pub mod strutil;
