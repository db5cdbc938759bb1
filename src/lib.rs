//! Verified core of an Albatross-style node: the ordered, retrying request
//! pipeline used for history download, the epoch clusters built on it, and the
//! mempool's transaction store with its fee-ordered block assembly.
mod keyed_queue;

pub mod primitives;
pub mod transaction;
pub mod mempool_state;
pub mod mempool;
pub mod sync_queue;
pub mod messages;
pub mod sync_cluster;
pub mod history_sync;
