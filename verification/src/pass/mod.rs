//! Passes over the dataflow graph and analyses of the syntax tree.

pub mod checks;
pub mod cloning;
pub mod const_fold;
pub mod context;
pub mod copy_prop;
pub mod cse;
pub mod dce;
pub mod driver;
pub mod dse;
pub mod fold;
pub mod inline;
pub mod licm;
pub mod liveness;
pub mod loops;
pub mod strength;
pub mod unroll;
