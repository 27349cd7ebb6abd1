//! A chat relay core: parsing of client lines into routing requests and a
//! broker that owns the peer registry and the per-peer outbound queues.

pub mod text;
pub mod parse;
pub mod broker;
pub mod laws;
pub mod session;
