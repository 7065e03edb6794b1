//! Transformations that accumulate over the passes of one round, to be
//! applied by one compaction.

use vstd::prelude::*;

use crate::fx::{no_ids, IdMap, IdSet};
use crate::ir::layout::stays;
use crate::ir::redirect::{acyclic, lemma_empty_acyclic, resolve_in, resolved};
use crate::ir::types::NodeId;

verus! {

/// Dead nodes, redirects and dead subgraphs of one round.
#[derive(Debug)]
pub struct OptimizerContext {
    /// Dead nodes.
    pub dead: IdSet,
    /// Redirects: a node and the node that replaces it.
    pub redirect: IdMap,
    /// Dead subgraphs: those of unreachable functions.
    pub dead_sgs: IdSet,
    /// Whether a pass changed a node in place.
    pub mutated: bool,
    /// Number of nodes folded in this round.
    pub cf_folded_count: usize,
}

impl OptimizerContext {
    /// Redirects run in no circle, from nodes of the graph.
    pub open spec fn wf(&self, node_count: int) -> bool {
        &&& acyclic(self.redirect@)
        &&& forall|k: u32| #[trigger] self.redirect@.contains_key(k) ==> k < node_count
    }

    /// A context in which nothing has happened.
    pub fn new() -> (r: Self)
        ensures
            r.dead@ == Set::<u32>::empty(),
            r.redirect@ == no_ids(),
            r.dead_sgs@ == Set::<u32>::empty(),
            !r.mutated,
            r.cf_folded_count == 0,
            forall|n: int| #[trigger] r.wf(n),
    {
        proof {
            lemma_empty_acyclic();
        }
        OptimizerContext {
            dead: IdSet::new(),
            redirect: IdMap::new(),
            dead_sgs: IdSet::new(),
            mutated: false,
            cf_folded_count: 0,
        }
    }

    /// Follows redirects to the node that finally stands for this one.
    pub fn resolve(&self, id: NodeId) -> (r: NodeId)
        requires
            acyclic(self.redirect@),
        ensures
            r.0 == resolved(self.redirect@, id.0),
            !self.redirect@.contains_key(r.0),
    {
        NodeId(resolve_in(&self.redirect, id.0))
    }

    /// Whether a node is retained: neither dead nor redirected.
    pub fn is_live(&self, id: NodeId) -> (r: bool)
        ensures
            r == stays(self.dead@, self.redirect@, id.0 as int),
    {
        !self.dead.contains(id.0) && !self.redirect.contains_key(id.0)
    }

    pub open spec fn changed(&self) -> bool {
        self.mutated || self.dead@ != Set::<u32>::empty() || self.redirect@ != no_ids()
            || self.dead_sgs@ != Set::<u32>::empty()
    }

    /// Whether anything happened in this round.
    pub fn has_changes(&self) -> (r: bool)
        ensures
            r == self.changed(),
    {
        self.mutated || !self.dead.is_empty() || !self.redirect.is_empty()
            || !self.dead_sgs.is_empty()
    }
}

impl Default for OptimizerContext {
    fn default() -> (r: Self)
        ensures
            !r.changed(),
            r.cf_folded_count == 0,
            forall|n: int| #[trigger] r.wf(n),
    {
        OptimizerContext::new()
    }
}

} // verus!
