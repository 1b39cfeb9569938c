//! Software transactional memory with per-stripe versioned locks and a global
//! version clock.
//!
//! Memory is divided into stripes. Each stripe has a word that holds its
//! version and, in the top bit, its lock. A transaction notes the clock when
//! it starts, and a read is valid only while the stripe is unlocked and no
//! newer than that.

pub mod memory;
pub mod read;
pub mod stm;
pub mod word;
pub mod write;
