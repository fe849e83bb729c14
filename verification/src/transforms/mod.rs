//! The structural transforms that need no language model: chunks of
//! structureless text, and the entries of a folder's listing.

pub mod chunker;
pub mod directory;
