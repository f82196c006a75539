//! A DNS forwarding proxy core with domain blocklisting: the wire codec, the
//! blocklist tree, the response cache and the per-request decisions, each
//! with a machine-checked contract.

pub mod error;
pub mod cache;
pub mod config;
pub mod dns;
pub mod filter;
pub mod handler;
pub mod text;
pub mod upstream;
