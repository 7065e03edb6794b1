//! How recursive and looping functions are to be compiled.

use super::tables::FuncId;
use crate::ast::tree::ExprId;
use vstd::prelude::*;

verus! {

/// A branch that ends the recursion: its condition, where it has one, and its
/// value.
#[derive(Debug, Clone, Copy, PartialEq, Eq, Structural)]
pub struct BaseCase {
    pub cond: Option<ExprId>,
    pub value: ExprId,
}

/// A branch that calls the function again: its condition, where it has one,
/// and the arguments of the call.
#[derive(Debug)]
pub struct RecBranch {
    pub cond: Option<ExprId>,
    pub args: Vec<ExprId>,
}

/// What a function that calls itself in tail positions only becomes a loop
/// from.
#[derive(Debug)]
pub struct TailRecInfo {
    pub base_cases: Vec<BaseCase>,
    pub rec_branches: Vec<RecBranch>,
}

impl TailRecInfo {
    /// Whether there is a branch of each kind.
    pub fn is_valid(&self) -> (r: bool)
        ensures
            r == (self.base_cases@.len() > 0 && self.rec_branches@.len() > 0),
    {
        self.base_cases.len() > 0 && self.rec_branches.len() > 0
    }
}

/// What a function that calls itself elsewhere becomes a loop with a stack
/// from.
#[derive(Debug)]
pub struct NonTailRecInfo {
    /// The calls outside tail positions, in source order.
    pub call_sites: Vec<ExprId>,
    /// The expression that goes on after a call: the body.
    pub continuation_expr: ExprId,
    pub base_cases: Vec<BaseCase>,
    pub param_count: usize,
}

impl NonTailRecInfo {
    /// Whether there is a call and a branch that ends the recursion.
    pub fn is_valid(&self) -> (r: bool)
        ensures
            r == (self.call_sites@.len() > 0 && self.base_cases@.len() > 0),
    {
        self.call_sites.len() > 0 && self.base_cases.len() > 0
    }
}

/// The parameters that results are remembered by.
#[derive(Debug)]
pub struct CacheKeySpec {
    pub param_indices: Vec<u32>,
}

#[derive(Debug, Clone, Copy, PartialEq, Eq, Structural)]
pub enum MemoCapacity {
    Unlimited,
    LRU(usize),
}

#[derive(Debug)]
pub enum MemoStrategy {
    TailRecToLoop { info: TailRecInfo },
    NonTailRecToLoop { info: NonTailRecInfo },
    Memoize { cache_key: CacheKeySpec, capacity: MemoCapacity },
    LoopInvariantHoist { invariants: Vec<ExprId> },
}

#[derive(Debug)]
pub struct MemoCandidate {
    pub func: FuncId,
    pub strategy: MemoStrategy,
}

#[derive(Debug)]
pub struct MemoPlan {
    pub candidates: Vec<MemoCandidate>,
}

} // verus!
