//! Verified core of a local outbound mail queue.
//!
//! Messages live in maildir-style stores; each store's committed content is
//! modelled as a lexicographically sorted sequence of identifiers with their
//! raw bytes. The engine performs the queue transitions (enqueue, move,
//! revive, drop), derives SMTP envelopes from message headers, and resolves
//! profile names to delivery configurations. Filesystem and network work is
//! left to the surrounding application, which feeds plain values in and
//! carries the decided actions out.

pub mod errors;
pub mod order;
pub mod store;
pub mod headers;
pub mod envelope;
pub mod config;
pub mod engine;
