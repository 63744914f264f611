//! A store of keys and values with revisions, leases and watches, kept in memory and in a
//! write-ahead log.

pub mod bytes;
pub mod server;
pub mod sorted_map;
pub mod storage;
pub mod text;
pub mod tools;
