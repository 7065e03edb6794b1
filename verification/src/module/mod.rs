//! Loading of modules: where they come from, and in what order they are
//! checked.

pub mod paths;
pub mod deps;
pub mod contents;
pub mod loader;
pub mod walk;
