//! Synchronization: which peers a round exchanges with, how one exchange
//! runs to quiescence, and what is remembered of each peer.

pub mod config;
pub mod exchange;
pub mod peers;
pub mod protocol;
pub mod views;
