//! Decoding, accumulation and changeset emission for a block-by-block index of
//! contract events.
//!
//! A block is an ordered run of log entries. Each entry is decoded into a typed
//! domain event by the role of the contract that emitted it, the events of a
//! block are folded into keyed stores that record every change as a delta, and
//! the events and deltas of the block are rendered as row mutations for a
//! relational sink.

pub mod accumulate;
pub mod aggregator;
pub mod bigint;
pub mod changeset;
pub mod decoder;
pub mod encoding;
pub mod error;
pub mod pipeline;
pub mod registry;
pub mod store;
pub mod types;

pub use accumulate::store_exa_accounts;
pub use aggregator::{map_exa_accounts, map_exa_plugins};
pub use changeset::db_out;
