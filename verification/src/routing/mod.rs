//! Routing: resolving a host to the node that serves it, carrying the
//! ladder's reads there, relaying for others, and fanning a query out to the
//! nodes whose index is worth asking.

pub mod config;
pub mod fan_out;
pub mod protocol;
pub mod serve;
