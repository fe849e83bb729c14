//! The roster: what a node publishes about itself and the hosts it stewards,
//! the invitations it holds open, and whom it lets in.

pub mod admission;
pub mod config;
pub mod invitations;
pub mod stewardships;
