//! Generation of Buck2 rules from the dependency graph.

pub mod actions;
pub mod deps;
pub mod starlark;
pub mod windows;
