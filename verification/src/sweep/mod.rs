//! The sweep: finding what changed under a scope, and bringing the index up
//! to it.

pub mod cache;
pub mod config;
pub mod decide;
pub mod embed;
pub mod entities;
pub mod folders;
pub mod grant;
pub mod ignore;
pub mod plan;
pub mod report;
pub mod run;
pub mod source;
pub mod vocabulary;
