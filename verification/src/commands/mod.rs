//! The subcommands: their arguments, and what they ask of Buck2.

pub mod cli;
pub mod clippy;
pub mod plan;
pub mod run;
pub mod test;
