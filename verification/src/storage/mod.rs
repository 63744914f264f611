//! The store: what it holds in memory, its log, and what it is asked.

pub mod apply;
pub mod compare;
pub mod crc;
pub mod delete_laws;
pub mod durability;
pub mod event_laws;
pub mod fixed;
pub mod frames;
pub mod history;
pub mod key_value;
pub mod laws;
pub mod lease;
pub mod lease_laws;
pub mod leases;
pub mod legacy;
pub mod log;
pub mod meaning;
pub mod messages;
pub mod put_laws;
pub mod query;
pub mod query_laws;
pub mod range;
pub mod recovery;
pub mod recovery_laws;
pub mod state;
pub mod store;
pub mod txn;
pub mod varint;
pub mod wal;
pub mod watcher;

pub use crate::storage::apply::apply_record;
pub use crate::storage::compare::eval_compare;
pub use crate::storage::leases::LeaseState;
pub use crate::storage::range::{matches_range, resolve_range, RangeBound, RangeBoundRef};
pub use crate::storage::state::{
    current_revision, next_revision, KeyState, StoreState, WatchEvent, WatchRegistration,
};
pub use crate::storage::store::Store;
