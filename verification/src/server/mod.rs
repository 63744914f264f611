//! What the services answer, beyond what the store does.

pub mod auth;
pub mod cluster;
pub mod laws;
pub mod maintenance;
pub mod watch;
pub mod watch_laws;
