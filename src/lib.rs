//! A fixed-capacity block allocator for an arena shared between processes.
//!
//! The arena starts with a one-byte lock word; the rest of it, the guarded
//! region, holds a list of block headers threaded through the region's own
//! bytes. Every link is stored as an offset from the start of the guarded
//! region, so processes that map the arena at different addresses agree on it.
pub mod layout;
pub mod block_list;
pub mod mutex;
pub mod allocator;
pub mod release;
