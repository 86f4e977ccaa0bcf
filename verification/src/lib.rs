//! Building Cargo workspaces with Buck2.

pub mod assets;
pub mod buckify;
pub mod cache;
pub mod commands;
pub mod config;
pub mod diagnostics;
pub mod error;
pub mod features;
pub mod paths;
pub mod resolve;
pub mod sorted;
pub mod text;
pub mod workspace;
