//! Dataflow-graph core of the Kuzo compiler.

pub mod analysis;
pub mod arith;
pub mod ast;
pub mod find;
pub mod fx;
pub mod ir;
pub mod module;
pub mod name_table;
pub mod names;
pub mod pass;
pub mod project;
pub mod value;
