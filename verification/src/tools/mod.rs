//! What the tools around the store compute.

pub mod inspect;
pub mod kine;
pub mod laws;
pub mod memory;
pub mod migrate;
pub mod rebuild;
