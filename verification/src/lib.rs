//! Building blocks for cooperative and shared-memory concurrency.
//!
//! * [`green`]: a cooperative green-thread runtime: run queue, identities,
//!   mailboxes and the decisions taken at every switch point.
//! * [`banker`]: the banker's algorithm for deadlock-free resource grants.
//! * [`tl2`]: software transactional memory with versioned stripe locks.

pub mod banker;
pub mod green;
pub mod tl2;
