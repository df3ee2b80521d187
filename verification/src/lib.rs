//! Network adapter configuration library.
//!
//! The crate models network adapters as owned records, derives netmasks from
//! prefix lengths, keeps a store of saved adapter configurations keyed by
//! adapter identity, and builds the ordered command batches that apply a
//! configuration through the host's command-line network tool.

pub mod adapter;
pub mod ip;
pub mod set_ip;
pub mod store;
pub mod utils;
