//! The operations a node serves: the rungs of the discovery ladder, queries
//! merged across nodes, the owner's view of the network, plugin installs,
//! and the vocabulary.

pub mod install;
pub mod ladder;
pub mod merge;
pub mod network;
pub mod service;
pub mod vocabulary;
