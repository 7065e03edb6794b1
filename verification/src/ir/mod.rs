//! The dataflow graph and what is computed on it alone.

pub mod codes;
pub mod compute_fns;
pub mod constants;
pub mod edges;
pub mod frame;
pub mod graph;
pub mod layout;
pub mod meta;
pub mod meta_eq;
pub mod nesting;
pub mod rebuild;
pub mod redirect;
pub mod refs;
pub mod region;
pub mod renumber;
pub mod reset_plan;
pub mod setters;
pub mod sg_refs;
pub mod snapshot;
pub mod types;
pub mod value_table;
