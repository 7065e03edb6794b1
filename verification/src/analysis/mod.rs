pub mod effects;
pub mod tables;
pub mod def_use;
pub mod def_use_events;
pub mod closure;
pub mod call_graph;
pub mod scc;
pub mod functions;
pub mod purity;
pub mod escape;
pub mod lambda_escape;
pub mod dead_code;
pub mod dead_vars;
pub mod inline_plan;
pub mod memo_plan;
pub mod dead_funcs;
pub mod patterns;
pub mod stack_alloc;
pub mod recursion;
pub mod invariants;
pub mod memo;
pub mod report;
