//! A small URL-shortening service: short identifiers that map to target
//! URLs, optionally expiring, reached through a request dispatcher.

pub mod timestamp;
pub mod ident;
pub mod store;
pub mod entry;
pub mod router;
