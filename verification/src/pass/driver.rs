//! The optimizer: loop transformations once, then rounds of the other passes
//! until nothing more is gained.
//!
//! Where a pass finds the graph unfit for it, the graph goes back to what it
//! was before the unit of work, and optimization ends there. A graph that can
//! be walked and numbers its subgraphs by place stays so.

use vstd::prelude::*;

use crate::analysis::report::AnalysisReport;
use crate::fx::{no_ids, IdSet};
use crate::ir::compute_fns::pure_ids;
use crate::ir::graph::{graph_pure_set, in_range, DataFlowGraph};
use crate::ir::snapshot::{law_copies_are_as_valid, same_graph};
use crate::ir::types::{NodeId, NodeKind, SubGraphId};
use crate::pass::checks::{
    can_hoist, can_inline, can_unroll, has_valid_live_nodes, has_valid_sg_refs, is_rebuildable, is_wf,
};
use crate::pass::const_fold::{became_const, fold_chain, pass_const_fold};
use crate::pass::context::OptimizerContext;
use crate::pass::copy_prop::{copy_redirects, pass_copy_prop};
use crate::pass::cse::{cse_state, pass_cse};
use crate::pass::dce::{dce_dead, func_dce_dead, func_dce_dead_sgs, kills_any, pass_dce, pass_func_dce};
use crate::pass::dse::{dead_store, pass_dse};
use crate::pass::inline::{calls_wf, inline_chain, inline_overflows, limited_sites, pass_inline};
use crate::pass::licm::{hoists_any, licm_chain, licm_wf, pass_licm};
use crate::pass::liveness::{live_walkable, sg_refs_valid, walkable};
use crate::pass::loops::{invariant_views, LoopAnalysisReport};
use crate::pass::strength::{pass_strength_reduction, reduces_any, strength_chain, strength_stops};
use crate::pass::unroll::{marks_of, pass_loop_unroll, unroll_chain, unrolls_any, unrolls_wf, Marks};

verus! {

/// How much is optimized.
#[derive(Clone, Copy, Debug, PartialEq, Eq, PartialOrd, Ord, Structural)]
pub enum OptLevel {
    /// Nothing.
    O0,
    /// Rounds of passes, without loop transformations.
    O1,
    /// Loop transformations and rounds of passes.
    O2,
    /// As `O2`, with more patience for rounds that gain nothing.
    O3,
}

impl Default for OptLevel {
    fn default() -> (r: Self)
        ensures
            r == OptLevel::O2,
    {
        OptLevel::O2
    }
}

/// Passes that are switched off, and limits on the rounds.
#[derive(Clone, Copy, Debug, PartialEq, Eq, Structural)]
pub struct OptSettings {
    pub no_fold: bool,
    pub no_cse: bool,
    pub no_copy: bool,
    pub no_dce: bool,
    pub no_licm: bool,
    pub no_unroll: bool,
    pub no_strength: bool,
    pub no_dse: bool,
    pub no_funcdce: bool,
    pub no_inline: bool,
    /// The most calls to inline in a round.
    pub inline_limit: Option<usize>,
    /// Rounds without gain after which to stop, in place of the level's own.
    pub stall_window: Option<u32>,
    /// The most rounds to run.
    pub max_rounds: Option<u32>,
}

impl Default for OptSettings {
    fn default() -> (r: Self)
        ensures
            r == all_passes(),
    {
        OptSettings {
            no_fold: false,
            no_cse: false,
            no_copy: false,
            no_dce: false,
            no_licm: false,
            no_unroll: false,
            no_strength: false,
            no_dse: false,
            no_funcdce: false,
            no_inline: false,
            inline_limit: None,
            stall_window: None,
            max_rounds: None,
        }
    }
}

/// All passes, and no limit but the level's patience.
pub open spec fn all_passes() -> OptSettings {
    OptSettings {
        no_fold: false,
        no_cse: false,
        no_copy: false,
        no_dce: false,
        no_licm: false,
        no_unroll: false,
        no_strength: false,
        no_dse: false,
        no_funcdce: false,
        no_inline: false,
        inline_limit: None,
        stall_window: None,
        max_rounds: None,
    }
}

/// The most calls to inline in a round.
pub open spec fn inline_limit(settings: OptSettings) -> int {
    match settings.inline_limit {
        Some(n) => n as int,
        None => usize::MAX as int,
    }
}

/// Rounds without gain after which to stop.
pub open spec fn patience(level: OptLevel, settings: OptSettings) -> u32 {
    match settings.stall_window {
        Some(n) => n,
        None => if level == OptLevel::O3 {
            30
        } else {
            10
        },
    }
}

// ---- progress --------------------------------------------------------------

/// Number of calls among the first `n` nodes.
pub open spec fn call_count(g: DataFlowGraph, n: int) -> nat
    decreases n,
{
    if n <= 0 {
        0
    } else {
        call_count(g, n - 1) + if g.nodes@[n - 1].kind == NodeKind::Call {
            1nat
        } else {
            0nat
        }
    }
}

/// What the rounds bring down: the number of calls, then that of nodes.
pub open spec fn measure(g: DataFlowGraph) -> (nat, nat) {
    (call_count(g, g.nodes@.len() as int), g.nodes@.len())
}

pub open spec fn less(a: (nat, nat), b: (nat, nat)) -> bool {
    a.0 < b.0 || (a.0 == b.0 && a.1 < b.1)
}

/// The number of calls, and that of nodes.
pub fn fixpoint_measure(graph: &DataFlowGraph) -> (r: (usize, usize))
    ensures
        (r.0 as nat, r.1 as nat) == measure(*graph),
{
    let mut calls: usize = 0;
    let mut i: usize = 0;
    while i < graph.nodes.len()
        invariant
            i <= graph.nodes@.len(),
            calls <= i,
            calls == call_count(*graph, i as int),
        decreases graph.nodes@.len() - i,
    {
        if graph.nodes[i].kind == NodeKind::Call {
            calls = calls + 1;
        }
        i = i + 1;
    }
    (calls, graph.nodes.len())
}

/// A gate that lies in the range of a branch that it launches: running it would
/// never end.
#[derive(Clone, Copy, Debug, PartialEq, Eq, Structural)]
pub struct GateInBranch {
    pub gate: NodeId,
    pub when: bool,
    pub branch: SubGraphId,
}

/// Whether branch `b` of node `i` holds that node.
pub open spec fn holds_gate(g: DataFlowGraph, i: int, b: int) -> bool {
    g.meta@[i].gate_branches matches Some(gb) && {
        let sg = gb.branches@[b].subgraph;
        sg.0 < g.subgraphs@.len() && in_range(g.subgraphs@[sg.0 as int].node_range, i)
    }
}

/// The branches among the first `k` of node `i` that hold it.
pub open spec fn own_branches(g: DataFlowGraph, i: int, k: int) -> Seq<GateInBranch>
    decreases k,
{
    if k <= 0 {
        seq![]
    } else if holds_gate(g, i, k - 1) {
        let b = g.meta@[i].gate_branches->0.branches@[k - 1];
        own_branches(g, i, k - 1).push(GateInBranch { gate: NodeId(i as u32), when: b.when, branch: b.subgraph })
    } else {
        own_branches(g, i, k - 1)
    }
}

/// The branches of the first `n` nodes that hold the node itself.
pub open spec fn gates_in_branches(g: DataFlowGraph, n: int) -> Seq<GateInBranch>
    decreases n,
{
    if n <= 0 {
        seq![]
    } else {
        gates_in_branches(g, n - 1) + match g.meta@[n - 1].gate_branches {
            Some(gb) => own_branches(g, n - 1, gb.branches@.len() as int),
            None => seq![],
        }
    }
}

/// The branches that hold the node that launches them.
pub fn check_gate_in_branch(graph: &DataFlowGraph) -> (out: Vec<GateInBranch>)
    requires
        graph.meta@.len() <= u32::MAX,
    ensures
        out@ == gates_in_branches(*graph, graph.meta@.len() as int),
{
    let mut out: Vec<GateInBranch> = Vec::new();
    let mut i: usize = 0;
    while i < graph.meta.len()
        invariant
            i <= graph.meta@.len() <= u32::MAX,
            out@ == gates_in_branches(*graph, i as int),
        decreases graph.meta@.len() - i,
    {
        let ghost before = out@;
        if let Some(gb) = &graph.meta[i].gate_branches {
            let mut k: usize = 0;
            assert(out@ =~= before + own_branches(*graph, i as int, 0));
            while k < gb.branches.len()
                invariant
                    k <= gb.branches@.len(),
                    i < graph.meta@.len() <= u32::MAX,
                    graph.meta@[i as int].gate_branches == Some(*gb),
                    out@ == before + own_branches(*graph, i as int, k as int),
                decreases gb.branches@.len() - k,
            {
                let when = gb.branches[k].when;
                let sg = gb.branches[k].subgraph;
                if (sg.0 as usize) < graph.subgraphs.len() {
                    let range = graph.subgraphs[sg.0 as usize].node_range;
                    if range.0.0 as usize <= i && i < range.1.0 as usize {
                        out.push(GateInBranch { gate: NodeId(i as u32), when, branch: sg });
                    }
                }
                k = k + 1;
                assert(out@ =~= before + own_branches(*graph, i as int, k as int));
            }
        }
        i = i + 1;
        assert(out@ =~= gates_in_branches(*graph, i as int));
    }
    out
}

// ---- one round -------------------------------------------------------------

/// A graph together with what the passes of a round have decided.
pub ghost struct Stage {
    pub graph: DataFlowGraph,
    pub ctx: OptimizerContext,
}

/// A context in which nothing has happened.
pub open spec fn fresh(c: OptimizerContext) -> bool {
    &&& !c.changed()
    &&& c.cf_folded_count == 0
}

#[verifier::opaque]
pub open spec fn inline_step(off: bool, limit: int, a: Stage, b: Stage) -> bool {
    if off {
        a == b
    } else {
        let sites = limited_sites(&a.graph, limit);
        &&& exists|gs: Seq<DataFlowGraph>| #[trigger]
            inline_chain(gs, sites) && gs[0] == a.graph && gs[gs.len() - 1] == b.graph
        &&& b.ctx == (OptimizerContext { mutated: a.ctx.mutated || sites.len() > 0, ..a.ctx })
    }
}

#[verifier::opaque]
pub open spec fn fold_step(off: bool, a: Stage, b: Stage) -> bool {
    if off {
        a == b
    } else {
        let n = became_const(&a.graph, &b.graph, a.graph.nodes@.len() as int);
        &&& exists|gs: Seq<DataFlowGraph>| #[trigger]
            fold_chain(gs, a.graph, b.graph, a.ctx.dead@, a.ctx.redirect@)
        &&& b.ctx == (OptimizerContext {
            mutated: a.ctx.mutated || n > 0,
            cf_folded_count: (a.ctx.cf_folded_count + n) as usize,
            ..a.ctx
        })
    }
}

#[verifier::opaque]
pub open spec fn strength_pass(off: bool, a: Stage, b: Stage) -> bool {
    if off {
        a == b
    } else {
        exists|gs: Seq<DataFlowGraph>| #[trigger]
            strength_chain(gs, a.graph, b.graph, a.ctx.dead@, a.ctx.redirect@) && b.ctx == (OptimizerContext {
                mutated: a.ctx.mutated || reduces_any(gs, a.ctx.dead@, a.ctx.redirect@),
                ..a.ctx
            })
    }
}

#[verifier::opaque]
pub open spec fn cse_pass(off: bool, g: DataFlowGraph, a: OptimizerContext, b: OptimizerContext) -> bool {
    if off {
        a == b
    } else {
        &&& b == (OptimizerContext { redirect: b.redirect, ..a })
        &&& b.redirect@ == cse_state(&g, a.dead@, pure_ids(), a.redirect@, g.nodes@.len() as int).redirect
    }
}

#[verifier::opaque]
pub open spec fn copy_pass(off: bool, g: DataFlowGraph, a: OptimizerContext, b: OptimizerContext) -> bool {
    if off {
        a == b
    } else {
        &&& b == (OptimizerContext { redirect: b.redirect, ..a })
        &&& b.redirect@ == copy_redirects(&g, a.dead@, a.redirect@, g.nodes@.len() as int)
    }
}

#[verifier::opaque]
pub open spec fn dce_pass(off: bool, g: DataFlowGraph, a: OptimizerContext, b: OptimizerContext) -> bool {
    if off {
        a == b
    } else {
        &&& b == (OptimizerContext { dead: b.dead, ..a })
        &&& b.dead@ == dce_dead(&g, a.dead@, a.redirect@, pure_ids())
    }
}

#[verifier::opaque]
pub open spec fn dse_pass(off: bool, g: DataFlowGraph, a: OptimizerContext, b: OptimizerContext) -> bool {
    if off {
        a == b
    } else {
        &&& b == (OptimizerContext { dead: b.dead, ..a })
        &&& forall|x: u32| #[trigger]
            b.dead@.contains(x) <==> a.dead@.contains(x) || (x < g.nodes@.len() && dead_store(
                &g,
                a.dead@,
                a.redirect@,
                x as int,
            ))
    }
}

#[verifier::opaque]
pub open spec fn func_dce_pass(off: bool, g: DataFlowGraph, a: OptimizerContext, b: OptimizerContext) -> bool {
    if off {
        a == b
    } else {
        &&& b.dead@ == func_dce_dead(&g, a.dead@, a.redirect@)
        &&& b.dead_sgs@ == func_dce_dead_sgs(&g, a.dead@, a.redirect@, a.dead_sgs@)
        &&& b == (OptimizerContext {
            dead: b.dead,
            dead_sgs: b.dead_sgs,
            mutated: a.mutated || kills_any(&g, a.dead@, a.redirect@),
            ..a
        })
    }
}

/// The stages of a round: after inlining, folding and strength reduction, which
/// change the graph, then what the others decide on it.
pub ghost struct RoundTrace {
    pub start: Stage,
    pub inlined: Stage,
    pub folded: Stage,
    pub reduced: Stage,
    pub merged: OptimizerContext,
    pub copied: OptimizerContext,
    pub pruned: OptimizerContext,
    pub unstored: OptimizerContext,
    pub end: OptimizerContext,
}

impl RoundTrace {
    pub open spec fn begins(self, g: DataFlowGraph) -> bool {
        self.start.graph == g && fresh(self.start.ctx)
    }

    /// The passes in front of strength reduction.
    pub open spec fn rewrites(self, s: OptSettings) -> bool {
        inline_step(s.no_inline, inline_limit(s), self.start, self.inlined) && fold_step(s.no_fold, self.inlined, self.folded)
    }

    /// The passes that change the graph itself.
    pub open spec fn rebuilds(self, s: OptSettings) -> bool {
        self.rewrites(s) && strength_pass(s.no_strength, self.folded, self.reduced)
    }

    /// The passes that decide on redirects.
    pub open spec fn merges(self, s: OptSettings) -> bool {
        let g = self.reduced.graph;
        &&& cse_pass(s.no_cse, g, self.reduced.ctx, self.merged)
        &&& copy_pass(s.no_copy, g, self.merged, self.copied)
    }

    /// The passes that decide on dead nodes.
    pub open spec fn prunes(self, s: OptSettings) -> bool {
        let g = self.reduced.graph;
        &&& dce_pass(s.no_dce, g, self.copied, self.pruned)
        &&& dse_pass(s.no_dse, g, self.pruned, self.unstored)
    }

    /// All passes of a round.
    pub open spec fn runs(self, s: OptSettings) -> bool {
        &&& start_fits(s, self.start.graph)
        &&& self.rebuilds(s)
        &&& cse_fits(s, self.reduced.graph)
        &&& self.merges(s)
        &&& walk_fits(s, self.reduced.graph, self.copied)
        &&& self.prunes(s)
        &&& func_dce_fits(s, self.reduced.graph, self.unstored)
        &&& func_dce_pass(s.no_funcdce, self.reduced.graph, self.unstored, self.end)
    }

    /// Some pass finds the graph unfit for it, or what the passes decided
    /// cannot be carried out.
    pub open spec fn stops(self, s: OptSettings) -> bool {
        ||| !start_fits(s, self.start.graph)
        ||| !s.no_inline && inline_overflows(self.start.graph, limited_sites(&self.start.graph, inline_limit(s)))
        ||| self.rewrites(s) && !s.no_strength && strength_stops(
            self.folded.graph,
            self.folded.ctx.dead@,
            self.folded.ctx.redirect@,
        )
        ||| self.rebuilds(s) && !cse_fits(s, self.reduced.graph)
        ||| self.rebuilds(s) && self.merges(s) && !walk_fits(s, self.reduced.graph, self.copied)
        ||| self.rebuilds(s) && self.merges(s) && self.prunes(s) && !func_dce_fits(
            s,
            self.reduced.graph,
            self.unstored,
        )
        ||| self.runs(s) && self.end.changed() && !self.reduced.graph.rebuildable(
            self.end.dead@,
            self.end.redirect@,
            self.end.dead_sgs@,
        )
    }
}

/// The graph can be walked, and its subgraphs are numbered by place.
pub open spec fn consistent(g: DataFlowGraph) -> bool {
    walkable(&g) && g.sg_ids_wf()
}

/// `b`, which came of `a`, can be walked, and has its subgraphs numbered by
/// place if `a` had.
pub open spec fn consistent_after(a: DataFlowGraph, b: DataFlowGraph) -> bool {
    walkable(&b) && (a.sg_ids_wf() ==> b.sg_ids_wf())
}

pub open spec fn start_fits(s: OptSettings, g: DataFlowGraph) -> bool {
    g.wf() && (s.no_inline || calls_wf(&g))
}

/// The subgraphs can be numbered.
pub open spec fn cse_fits(s: OptSettings, g: DataFlowGraph) -> bool {
    s.no_cse || g.subgraphs@.len() <= u32::MAX
}

/// The walk over what is live stays in the graph, where a pass makes it.
pub open spec fn walk_fits(s: OptSettings, g: DataFlowGraph, c: OptimizerContext) -> bool {
    ||| s.no_dce && s.no_dse && (s.no_funcdce || g.entry_subgraph is None)
    ||| live_walkable(&g, c.redirect@)
}

pub open spec fn func_dce_fits(s: OptSettings, g: DataFlowGraph, c: OptimizerContext) -> bool {
    s.no_funcdce || g.entry_subgraph is None || sg_refs_valid(&g, c.dead@, c.redirect@)
}

/// The round ran and changed the graph from `a` to `b`.
#[verifier::opaque]
pub open spec fn round_changes(s: OptSettings, a: DataFlowGraph, b: DataFlowGraph) -> bool {
    exists|t: RoundTrace| #[trigger]
        t.runs(s) && t.begins(a) && t.end.changed() && t.reduced.graph.rebuilt(
            &b,
            t.end.dead@,
            t.end.redirect@,
            t.end.dead_sgs@,
        )
}

/// The round ran and found nothing to change.
#[verifier::opaque]
pub open spec fn round_settles(s: OptSettings, a: DataFlowGraph, b: DataFlowGraph) -> bool {
    exists|t: RoundTrace| #[trigger] t.runs(s) && t.begins(a) && !t.end.changed() && b == t.reduced.graph
}

/// The round cannot be run to its end.
#[verifier::opaque]
pub open spec fn round_stops(s: OptSettings, a: DataFlowGraph) -> bool {
    exists|t: RoundTrace| #[trigger] t.stops(s) && t.begins(a)
}

/// How a unit of work ended.
#[derive(Clone, Copy, Debug, PartialEq, Eq, Structural)]
pub enum UnitEnd {
    Changed,
    Settled,
    /// It could not be run to its end; the graph is what it was.
    Stopped,
}

/// Inlining, folding and strength reduction leave redirects alone.
spec fn no_redirects(c: OptimizerContext) -> bool {
    &&& c.redirect@ == no_ids()
    &&& c.dead@ == Set::<u32>::empty()
    &&& forall|n: int| #[trigger] c.wf(n)
}

fn do_inline(graph: &mut DataFlowGraph, ctx: &mut OptimizerContext, s: &OptSettings) -> (done: bool)
    requires
        start_fits(*s, *old(graph)),
        no_redirects(*old(ctx)),
    ensures
        !done ==> !s.no_inline && inline_overflows(*old(graph), limited_sites(old(graph), inline_limit(*s))),
        done ==> inline_step(
            s.no_inline,
            inline_limit(*s),
            Stage { graph: *old(graph), ctx: *old(ctx) },
            Stage { graph: *final(graph), ctx: *final(ctx) },
        ),
        done ==> no_redirects(*final(ctx)),
        done ==> final(ctx).cf_folded_count == old(ctx).cf_folded_count,
        done && !final(ctx).mutated ==> *final(graph) == *old(graph),
        done ==> final(ctx).dead_sgs == old(ctx).dead_sgs,
        final(graph).subgraphs@ == old(graph).subgraphs@,
        final(graph).wf(),
{
    proof {
        reveal(inline_step);
    }
    if !s.no_inline {
        let limit: usize = match s.inline_limit {
            Some(n) => n,
            None => usize::MAX,
        };
        if !pass_inline(graph, ctx, limit) {
            return false;
        }
    }
    assert forall|n: int| #[trigger] ctx.wf(n) by {
        assert(old(ctx).wf(n));
    }
    true
}

fn do_fold(graph: &mut DataFlowGraph, ctx: &mut OptimizerContext, s: &OptSettings)
    requires
        old(graph).wf(),
        no_redirects(*old(ctx)),
        old(ctx).cf_folded_count == 0,
    ensures
        fold_step(
            s.no_fold,
            Stage { graph: *old(graph), ctx: *old(ctx) },
            Stage { graph: *final(graph), ctx: *final(ctx) },
        ),
        no_redirects(*final(ctx)),
        !final(ctx).mutated ==> !old(ctx).mutated && *final(graph) == *old(graph),
        final(graph).subgraphs@ == old(graph).subgraphs@,
        final(graph).wf(),
{
    proof {
        reveal(fold_step);
        assert(old(ctx).wf(0));
    }
    if !s.no_fold {
        pass_const_fold(graph, ctx);
    }
    assert forall|n: int| #[trigger] ctx.wf(n) by {
        assert(old(ctx).wf(n));
    }
}

fn do_strength(graph: &mut DataFlowGraph, ctx: &mut OptimizerContext, s: &OptSettings) -> (done: bool)
    requires
        old(graph).wf(),
        no_redirects(*old(ctx)),
    ensures
        !done ==> !s.no_strength && strength_stops(*old(graph), old(ctx).dead@, old(ctx).redirect@),
        done ==> strength_pass(
            s.no_strength,
            Stage { graph: *old(graph), ctx: *old(ctx) },
            Stage { graph: *final(graph), ctx: *final(ctx) },
        ),
        done ==> no_redirects(*final(ctx)),
        done && !final(ctx).mutated ==> !old(ctx).mutated && *final(graph) == *old(graph),
        final(graph).subgraphs@ == old(graph).subgraphs@,
        final(graph).wf(),
{
    proof {
        reveal(strength_pass);
        assert(old(ctx).wf(0));
    }
    if !s.no_strength {
        if !pass_strength_reduction(graph, ctx) {
            return false;
        }
        proof {
            let gs = choose|gs: Seq<DataFlowGraph>| #[trigger]
                strength_chain(gs, *old(graph), *graph, old(ctx).dead@, old(ctx).redirect@) && *ctx == (
                OptimizerContext {
                    mutated: old(ctx).mutated || reduces_any(gs, old(ctx).dead@, old(ctx).redirect@),
                    ..*old(ctx)
                });
            assert(strength_chain(gs, *old(graph), *graph, old(ctx).dead@, old(ctx).redirect@));
            let a = Stage { graph: *old(graph), ctx: *old(ctx) };
            let b = Stage { graph: *graph, ctx: *ctx };
            assert(strength_chain(gs, a.graph, b.graph, a.ctx.dead@, a.ctx.redirect@));
            assert(strength_pass(false, a, b));
        }
    }
    assert forall|n: int| #[trigger] ctx.wf(n) by {
        assert(old(ctx).wf(n));
    }
    true
}

fn do_cse(graph: &DataFlowGraph, ctx: &mut OptimizerContext, pure_set: &IdSet, s: &OptSettings)
    requires
        graph.wf(),
        cse_fits(*s, *graph),
        pure_set@ == pure_ids(),
        old(ctx).wf(graph.nodes@.len() as int),
    ensures
        cse_pass(s.no_cse, *graph, *old(ctx), *final(ctx)),
        final(ctx).dead == old(ctx).dead,
        final(ctx).mutated == old(ctx).mutated,
        final(ctx).wf(graph.nodes@.len() as int),
{
    proof {
        reveal(cse_pass);
    }
    if !s.no_cse {
        pass_cse(graph, ctx, pure_set);
    }
}

fn do_copy(graph: &DataFlowGraph, ctx: &mut OptimizerContext, s: &OptSettings)
    requires
        graph.wf(),
        old(ctx).wf(graph.nodes@.len() as int),
    ensures
        copy_pass(s.no_copy, *graph, *old(ctx), *final(ctx)),
        final(ctx).dead == old(ctx).dead,
        final(ctx).mutated == old(ctx).mutated,
        final(ctx).wf(graph.nodes@.len() as int),
{
    proof {
        reveal(copy_pass);
    }
    if !s.no_copy {
        pass_copy_prop(graph, ctx);
    }
}

fn do_dce(graph: &DataFlowGraph, ctx: &mut OptimizerContext, pure_set: &IdSet, s: &OptSettings)
    requires
        graph.wf(),
        s.no_dce || live_walkable(graph, old(ctx).redirect@),
        old(ctx).dead@ == Set::<u32>::empty(),
        pure_set@ == pure_ids(),
        old(ctx).wf(graph.nodes@.len() as int),
    ensures
        dce_pass(s.no_dce, *graph, *old(ctx), *final(ctx)),
        final(ctx).redirect == old(ctx).redirect,
        final(ctx).mutated == old(ctx).mutated,
        final(ctx).wf(graph.nodes@.len() as int),
{
    proof {
        reveal(dce_pass);
    }
    if !s.no_dce {
        pass_dce(graph, ctx, pure_set);
    }
}

fn do_dse(graph: &DataFlowGraph, ctx: &mut OptimizerContext, s: &OptSettings)
    requires
        graph.wf(),
        s.no_dse || live_walkable(graph, old(ctx).redirect@),
        old(ctx).wf(graph.nodes@.len() as int),
    ensures
        dse_pass(s.no_dse, *graph, *old(ctx), *final(ctx)),
        final(ctx).redirect == old(ctx).redirect,
        final(ctx).mutated == old(ctx).mutated,
        final(ctx).wf(graph.nodes@.len() as int),
{
    proof {
        reveal(dse_pass);
    }
    if !s.no_dse {
        pass_dse(graph, ctx);
    }
}

fn do_func_dce(graph: &DataFlowGraph, ctx: &mut OptimizerContext, s: &OptSettings)
    requires
        graph.wf(),
        s.no_funcdce || graph.entry_subgraph is None || live_walkable(graph, old(ctx).redirect@),
        func_dce_fits(*s, *graph, *old(ctx)),
        old(ctx).wf(graph.nodes@.len() as int),
    ensures
        func_dce_pass(s.no_funcdce, *graph, *old(ctx), *final(ctx)),
        old(ctx).mutated ==> final(ctx).mutated,
        final(ctx).wf(graph.nodes@.len() as int),
{
    proof {
        reveal(func_dce_pass);
    }
    if !s.no_funcdce {
        pass_func_dce(graph, ctx);
    }
}

/// Runs the passes of a round on the graph, and compacts it.
fn run_passes(graph: &mut DataFlowGraph, pure_set: &IdSet, s: &OptSettings) -> (end: UnitEnd)
    requires
        pure_set@ == pure_ids(),
    ensures
        match end {
            UnitEnd::Changed => round_changes(*s, *old(graph), *final(graph)) && consistent_after(
                *old(graph),
                *final(graph),
            ),
            UnitEnd::Settled => round_settles(*s, *old(graph), *final(graph)) && *final(graph) == *old(graph),
            UnitEnd::Stopped => round_stops(*s, *old(graph)),
        },
{
    proof {
        reveal(round_changes);
        reveal(round_settles);
        reveal(round_stops);
    }
    let mut ctx = OptimizerContext::new();
    let ghost start = Stage { graph: *graph, ctx };
    let ghost mut t = RoundTrace {
        start,
        inlined: start,
        folded: start,
        reduced: start,
        merged: ctx,
        copied: ctx,
        pruned: ctx,
        unstored: ctx,
        end: ctx,
    };
    if !is_wf(graph) || (!s.no_inline && !can_inline(graph)) {
        assert(t.stops(*s) && t.begins(*old(graph)));
        return UnitEnd::Stopped;
    }
    if !do_inline(graph, &mut ctx, s) {
        assert(t.stops(*s) && t.begins(*old(graph)));
        return UnitEnd::Stopped;
    }
    proof {
        t.inlined = Stage { graph: *graph, ctx };
    }
    do_fold(graph, &mut ctx, s);
    proof {
        t.folded = Stage { graph: *graph, ctx };
    }
    if !do_strength(graph, &mut ctx, s) {
        assert(t.stops(*s) && t.begins(*old(graph)));
        return UnitEnd::Stopped;
    }
    proof {
        t.reduced = Stage { graph: *graph, ctx };
    }
    if !s.no_cse && graph.subgraphs.len() > 0xFFFF_FFFF {
        assert(t.stops(*s) && t.begins(*old(graph)));
        return UnitEnd::Stopped;
    }
    do_cse(graph, &mut ctx, pure_set, s);
    proof {
        t.merged = ctx;
    }
    do_copy(graph, &mut ctx, s);
    proof {
        t.copied = ctx;
    }
    let walks: bool = !s.no_dce || !s.no_dse || (!s.no_funcdce && graph.entry_subgraph.is_some());
    if walks && !has_valid_live_nodes(graph, &ctx) {
        assert(t.stops(*s) && t.begins(*old(graph)));
        return UnitEnd::Stopped;
    }
    do_dce(graph, &mut ctx, pure_set, s);
    proof {
        t.pruned = ctx;
    }
    do_dse(graph, &mut ctx, s);
    proof {
        t.unstored = ctx;
    }
    if !s.no_funcdce && graph.entry_subgraph.is_some() && !has_valid_sg_refs(graph, &ctx) {
        assert(t.stops(*s) && t.begins(*old(graph)));
        return UnitEnd::Stopped;
    }
    do_func_dce(graph, &mut ctx, s);
    proof {
        t.end = ctx;
        assert(t.runs(*s));
    }
    if !ctx.has_changes() {
        return UnitEnd::Settled;
    }
    if !is_rebuildable(graph, &ctx.dead, &ctx.redirect, &ctx.dead_sgs) {
        assert(t.stops(*s) && t.begins(*old(graph)));
        return UnitEnd::Stopped;
    }
    graph.rebuild(&ctx.dead, &ctx.redirect, &ctx.dead_sgs);
    UnitEnd::Changed
}

/// Runs one round. Where it cannot be run to its end, the graph stays as it is.
pub fn run_round(graph: &mut DataFlowGraph, pure_set: &IdSet, s: &OptSettings) -> (end: UnitEnd)
    requires
        pure_set@ == pure_ids(),
    ensures
        match end {
            UnitEnd::Changed => round_changes(*s, *old(graph), *final(graph)) && consistent_after(
                *old(graph),
                *final(graph),
            ),
            UnitEnd::Settled => round_settles(*s, *old(graph), *final(graph)) && *final(graph) == *old(graph),
            UnitEnd::Stopped => round_stops(*s, *old(graph)) && same_graph(*old(graph), *final(graph)),
        },
{
    let snapshot = graph.clone();
    let end = run_passes(graph, pure_set, s);
    if end == UnitEnd::Stopped {
        *graph = snapshot;
    }
    end
}


// ---- loop transformations --------------------------------------------------

#[verifier::opaque]
pub open spec fn hoist_step(off: bool, report: LoopAnalysisReport, a: Stage, b: Stage) -> bool {
    if off {
        a == b
    } else {
        let lists = invariant_views(report.invariants@);
        &&& exists|gs: Seq<DataFlowGraph>, rs: Seq<Map<u32, u32>>| #[trigger]
            licm_chain(gs, rs, lists) && gs[0] == a.graph && gs[gs.len() - 1] == b.graph && rs[0]
                == a.ctx.redirect@ && rs[rs.len() - 1] == b.ctx.redirect@
        &&& b.ctx == (OptimizerContext {
            redirect: b.ctx.redirect,
            mutated: a.ctx.mutated || hoists_any(&a.graph, lists),
            ..a.ctx
        })
    }
}

#[verifier::opaque]
pub open spec fn unroll_step(off: bool, report: LoopAnalysisReport, a: Stage, b: Stage) -> bool {
    if off {
        a == b
    } else {
        let loops = report.unrollable@;
        exists|gs: Seq<DataFlowGraph>, ms: Seq<Marks>| #[trigger]
            unroll_chain(gs, ms, loops) && gs[0] == a.graph && gs[gs.len() - 1] == b.graph && ms[0] == marks_of(
                &a.ctx,
            ) && ms[ms.len() - 1] == marks_of(&b.ctx) && b.ctx == (OptimizerContext {
                dead: b.ctx.dead,
                redirect: b.ctx.redirect,
                mutated: a.ctx.mutated || unrolls_any(gs, loops),
                ..a.ctx
            })
    }
}

/// The stages of the loop transformations.
pub ghost struct LoopTrace {
    pub start: Stage,
    pub hoisted: Stage,
    pub unrolled: Stage,
}

impl LoopTrace {
    pub open spec fn begins(self, g: DataFlowGraph) -> bool {
        self.start.graph == g && fresh(self.start.ctx)
    }

    pub open spec fn hoists(self, s: OptSettings, report: LoopAnalysisReport) -> bool {
        &&& s.no_licm || licm_wf(&self.start.graph, invariant_views(report.invariants@))
        &&& hoist_step(s.no_licm, report, self.start, self.hoisted)
    }

    pub open spec fn runs(self, s: OptSettings, report: LoopAnalysisReport) -> bool {
        &&& self.hoists(s, report)
        &&& s.no_unroll || unrolls_wf(&self.hoisted.graph, report.unrollable@)
        &&& unroll_step(s.no_unroll, report, self.hoisted, self.unrolled)
    }

    /// A transformation finds the graph unfit for it, or what they decided
    /// cannot be carried out.
    pub open spec fn stops(self, s: OptSettings, report: LoopAnalysisReport) -> bool {
        ||| !s.no_licm && !licm_wf(&self.start.graph, invariant_views(report.invariants@))
        ||| self.hoists(s, report) && !s.no_unroll && !unrolls_wf(&self.hoisted.graph, report.unrollable@)
        ||| self.runs(s, report) && self.unrolled.ctx.changed() && !self.unrolled.graph.rebuildable(
            self.unrolled.ctx.dead@,
            self.unrolled.ctx.redirect@,
            self.unrolled.ctx.dead_sgs@,
        )
    }
}

pub open spec fn loops_change(s: OptSettings, r: LoopAnalysisReport, a: DataFlowGraph, b: DataFlowGraph) -> bool {
    exists|t: LoopTrace| #[trigger]
        t.runs(s, r) && t.begins(a) && t.unrolled.ctx.changed() && t.unrolled.graph.rebuilt(
            &b,
            t.unrolled.ctx.dead@,
            t.unrolled.ctx.redirect@,
            t.unrolled.ctx.dead_sgs@,
        )
}

pub open spec fn loops_settle(s: OptSettings, r: LoopAnalysisReport, a: DataFlowGraph, b: DataFlowGraph) -> bool {
    exists|t: LoopTrace| #[trigger]
        t.runs(s, r) && t.begins(a) && !t.unrolled.ctx.changed() && b == t.unrolled.graph
}

pub open spec fn loops_stop(s: OptSettings, r: LoopAnalysisReport, a: DataFlowGraph) -> bool {
    exists|t: LoopTrace| #[trigger] t.stops(s, r) && t.begins(a)
}

/// What the loop transformations make of a graph.
pub open spec fn after_loops(s: OptSettings, r: LoopAnalysisReport, a: DataFlowGraph, b: DataFlowGraph) -> bool {
    ||| loops_change(s, r, a, b)
    ||| loops_settle(s, r, a, b)
    ||| loops_stop(s, r, a) && same_graph(a, b)
}

fn do_hoist(graph: &mut DataFlowGraph, ctx: &mut OptimizerContext, report: &AnalysisReport, s: &OptSettings)
    requires
        s.no_licm || licm_wf(old(graph), invariant_views(report.loop_analysis.invariants@)),
        forall|n: int| #[trigger] old(ctx).wf(n),
    ensures
        hoist_step(
            s.no_licm,
            report.loop_analysis,
            Stage { graph: *old(graph), ctx: *old(ctx) },
            Stage { graph: *final(graph), ctx: *final(ctx) },
        ),
        final(ctx).wf(final(graph).nodes@.len() as int),
        final(graph).subgraphs@ == old(graph).subgraphs@,
        !final(ctx).mutated ==> *final(graph) == *old(graph),
{
    proof {
        reveal(hoist_step);
        assert(old(ctx).wf(old(graph).nodes@.len() as int));
    }
    if !s.no_licm {
        pass_licm(graph, ctx, Some(report));
    }
}

fn do_unroll(graph: &mut DataFlowGraph, ctx: &mut OptimizerContext, report: &AnalysisReport, s: &OptSettings)
    requires
        s.no_unroll || unrolls_wf(old(graph), report.loop_analysis.unrollable@),
        old(ctx).wf(old(graph).nodes@.len() as int),
    ensures
        unroll_step(
            s.no_unroll,
            report.loop_analysis,
            Stage { graph: *old(graph), ctx: *old(ctx) },
            Stage { graph: *final(graph), ctx: *final(ctx) },
        ),
        final(ctx).wf(final(graph).nodes@.len() as int),
        final(graph).subgraphs@ == old(graph).subgraphs@,
        !final(ctx).mutated ==> !old(ctx).mutated && *final(graph) == *old(graph),
{
    proof {
        reveal(unroll_step);
    }
    if !s.no_unroll {
        pass_loop_unroll(graph, ctx, Some(report));
        proof {
            let loops = report.loop_analysis.unrollable@;
            let (gs, ms) = choose|gs: Seq<DataFlowGraph>, ms: Seq<Marks>| #[trigger]
                unroll_chain(gs, ms, loops) && gs[0] == *old(graph) && gs[gs.len() - 1] == *graph && ms[0]
                    == marks_of(old(ctx)) && ms[ms.len() - 1] == marks_of(ctx) && *ctx == (OptimizerContext {
                    dead: ctx.dead,
                    redirect: ctx.redirect,
                    mutated: old(ctx).mutated || unrolls_any(gs, loops),
                    ..*old(ctx)
                });
            let a = Stage { graph: *old(graph), ctx: *old(ctx) };
            let b = Stage { graph: *graph, ctx: *ctx };
            assert(unroll_chain(gs, ms, loops) && gs[0] == a.graph);
            assert(unroll_step(false, report.loop_analysis, a, b));
        }
    }
}

fn run_loop_passes(graph: &mut DataFlowGraph, report: &AnalysisReport, s: &OptSettings) -> (end: UnitEnd)
    ensures
        match end {
            UnitEnd::Changed => loops_change(*s, report.loop_analysis, *old(graph), *final(graph))
                && consistent_after(*old(graph), *final(graph)),
            UnitEnd::Settled => loops_settle(*s, report.loop_analysis, *old(graph), *final(graph))
                && *final(graph) == *old(graph),
            UnitEnd::Stopped => loops_stop(*s, report.loop_analysis, *old(graph)),
        },
{
    let mut ctx = OptimizerContext::new();
    let ghost r = report.loop_analysis;
    let ghost start = Stage { graph: *graph, ctx };
    let ghost mut t = LoopTrace { start, hoisted: start, unrolled: start };
    if !s.no_licm && !can_hoist(graph, &report.loop_analysis.invariants) {
        assert(t.stops(*s, r) && t.begins(*old(graph)));
        return UnitEnd::Stopped;
    }
    do_hoist(graph, &mut ctx, report, s);
    proof {
        t.hoisted = Stage { graph: *graph, ctx };
    }
    if !s.no_unroll && !can_unroll(graph, &report.loop_analysis.unrollable) {
        assert(t.stops(*s, r) && t.begins(*old(graph)));
        return UnitEnd::Stopped;
    }
    do_unroll(graph, &mut ctx, report, s);
    proof {
        t.unrolled = Stage { graph: *graph, ctx };
        assert(t.runs(*s, r));
    }
    if !ctx.has_changes() {
        return UnitEnd::Settled;
    }
    if !is_rebuildable(graph, &ctx.dead, &ctx.redirect, &ctx.dead_sgs) {
        assert(t.stops(*s, r) && t.begins(*old(graph)));
        return UnitEnd::Stopped;
    }
    graph.rebuild(&ctx.dead, &ctx.redirect, &ctx.dead_sgs);
    UnitEnd::Changed
}

/// Runs the loop transformations. Where they cannot be run to their end, the
/// graph stays as it is.
pub fn run_loop_phase(graph: &mut DataFlowGraph, report: &AnalysisReport, s: &OptSettings) -> (end: UnitEnd)
    ensures
        after_loops(*s, report.loop_analysis, *old(graph), *final(graph)),
        (end == UnitEnd::Stopped) ==> loops_stop(*s, report.loop_analysis, *old(graph)) && same_graph(
            *old(graph),
            *final(graph),
        ),
        consistent(*old(graph)) ==> consistent(*final(graph)),
{
    let snapshot = graph.clone();
    let end = run_loop_passes(graph, report, s);
    if end == UnitEnd::Stopped {
        *graph = snapshot;
        proof {
            law_copies_are_as_valid(*old(graph), *graph);
        }
    }
    end
}

// ---- rounds ----------------------------------------------------------------

/// The least measure among the first graphs, up to graph `i`.
pub open spec fn best_upto(gs: Seq<DataFlowGraph>, i: int) -> (nat, nat)
    decreases i,
{
    if i <= 0 {
        measure(gs[0])
    } else if less(measure(gs[i]), best_upto(gs, i - 1)) {
        measure(gs[i])
    } else {
        best_upto(gs, i - 1)
    }
}

/// Number of rounds since the last one that gained something.
pub open spec fn stalled_upto(gs: Seq<DataFlowGraph>, i: int) -> nat
    decreases i,
{
    if i <= 0 {
        0
    } else if less(measure(gs[i]), best_upto(gs, i - 1)) {
        0
    } else {
        stalled_upto(gs, i - 1) + 1
    }
}

/// Whether another round follows graph `i`.
pub open spec fn goes_on(window: u32, cap: Option<u32>, gs: Seq<DataFlowGraph>, i: int) -> bool {
    i == 0 || (stalled_upto(gs, i) < window && (cap matches Some(c) ==> i < c))
}

/// The graphs are those after each round, and every round but the last was
/// followed by another one.
pub open spec fn rounds(s: OptSettings, window: u32, gs: Seq<DataFlowGraph>) -> bool {
    &&& gs.len() > 0
    &&& forall|i: int| 0 <= i < gs.len() - 1 ==> #[trigger] round_changes(s, gs[i], gs[i + 1])
    &&& forall|i: int| 0 <= i < gs.len() - 1 ==> #[trigger] goes_on(window, s.max_rounds, gs, i)
}

/// Why the rounds ended.
#[derive(Clone, Copy, Debug, PartialEq, Eq, Structural)]
pub enum FixpointEnd {
    /// The last round found nothing to change.
    Converged,
    /// A round could not be run; the graph is that of the round before it.
    Stopped,
    /// Too many rounds gained nothing.
    Stalled,
    /// The limit of rounds is reached.
    Capped,
}

/// How the rounds end, and with what graph.
pub open spec fn rounds_end(
    s: OptSettings,
    window: u32,
    gs: Seq<DataFlowGraph>,
    last: DataFlowGraph,
    why: FixpointEnd,
) -> bool {
    let n = gs.len() - 1;
    match why {
        FixpointEnd::Converged => goes_on(window, s.max_rounds, gs, n) && round_settles(s, gs[n], last),
        FixpointEnd::Stopped => goes_on(window, s.max_rounds, gs, n) && round_stops(s, gs[n]) && same_graph(
            gs[n],
            last,
        ),
        FixpointEnd::Stalled => n > 0 && stalled_upto(gs, n) >= window && last == gs[n],
        FixpointEnd::Capped => n > 0 && stalled_upto(gs, n) < window && !goes_on(window, s.max_rounds, gs, n) && last
            == gs[n],
    }
}

/// What the rounds make of a graph.
pub open spec fn after_rounds(
    s: OptSettings,
    window: u32,
    a: DataFlowGraph,
    b: DataFlowGraph,
    why: FixpointEnd,
) -> bool {
    exists|gs: Seq<DataFlowGraph>| #[trigger] rounds(s, window, gs) && gs[0] == a && rounds_end(s, window, gs, b, why)
}

proof fn lemma_prefix(gs: Seq<DataFlowGraph>, g: DataFlowGraph, i: int)
    requires
        0 <= i < gs.len(),
    ensures
        best_upto(gs.push(g), i) == best_upto(gs, i),
        stalled_upto(gs.push(g), i) == stalled_upto(gs, i),
    decreases i,
{
    assert(gs.push(g)[i] == gs[i]);
    assert(gs.push(g)[0] == gs[0]);
    if i > 0 {
        lemma_prefix(gs, g, i - 1);
    }
}

proof fn lemma_next_round(s: OptSettings, window: u32, gs: Seq<DataFlowGraph>, g: DataFlowGraph)
    requires
        rounds(s, window, gs),
        goes_on(window, s.max_rounds, gs, gs.len() - 1),
        round_changes(s, gs[gs.len() - 1], g),
    ensures
        rounds(s, window, gs.push(g)),
        best_upto(gs.push(g), gs.len() - 1) == best_upto(gs, gs.len() - 1),
        stalled_upto(gs.push(g), gs.len() - 1) == stalled_upto(gs, gs.len() - 1),
{
    let next = gs.push(g);
    let n = next.len() - 1;
    lemma_prefix(gs, g, n - 1);
    assert forall|i: int| 0 <= i < n implies #[trigger] round_changes(s, next[i], next[i + 1]) by {
        if i < n - 1 {
            assert(round_changes(s, gs[i], gs[i + 1]));
        }
    }
    assert forall|i: int| 0 <= i < n implies #[trigger] goes_on(window, s.max_rounds, next, i) by {
        lemma_prefix(gs, g, i);
        assert(goes_on(window, s.max_rounds, gs, i));
    }
}

/// Runs rounds until one changes nothing or cannot be run, too many gained
/// nothing, or the limit is reached.
fn run_rounds(graph: &mut DataFlowGraph, s: &OptSettings, window: u32) -> (why: FixpointEnd)
    ensures
        after_rounds(*s, window, *old(graph), *final(graph), why),
        consistent(*old(graph)) ==> consistent(*final(graph)),
{
    let pure_set = graph_pure_set(graph);
    let first = fixpoint_measure(graph);
    let mut best: (usize, usize) = first;
    let mut stalled: u32 = 0;
    let mut round: u32 = 0;
    let ghost mut gs: Seq<DataFlowGraph> = seq![*graph];
    loop
        invariant
            pure_set@ == pure_ids(),
            gs.len() > 0,
            gs[0] == *old(graph),
            gs[gs.len() - 1] == *graph,
            rounds(*s, window, gs),
            goes_on(window, s.max_rounds, gs, gs.len() - 1),
            (best.0 as nat, best.1 as nat) == best_upto(gs, gs.len() - 1),
            stalled == stalled_upto(gs, gs.len() - 1),
            gs.len() > 1 ==> stalled < window,
            stalled <= window,
            round == (if gs.len() - 1 < u32::MAX {
                gs.len() - 1
            } else {
                u32::MAX as int
            }),
            consistent(*old(graph)) ==> consistent(*graph),
        decreases best.0, best.1, window - stalled,
    {
        let ghost before = *graph;
        let end = run_round(graph, &pure_set, s);
        if end == UnitEnd::Settled {
            assert(rounds_end(*s, window, gs, *graph, FixpointEnd::Converged));
            return FixpointEnd::Converged;
        }
        if end == UnitEnd::Stopped {
            proof {
                law_copies_are_as_valid(before, *graph);
                assert(rounds_end(*s, window, gs, *graph, FixpointEnd::Stopped));
            }
            return FixpointEnd::Stopped;
        }
        if round < 0xFFFF_FFFF {
            round = round + 1;
        }
        let ghost next = gs.push(*graph);
        proof {
            lemma_next_round(*s, window, gs, *graph);
            gs = next;
        }
        let m = fixpoint_measure(graph);
        if m.0 < best.0 || (m.0 == best.0 && m.1 < best.1) {
            best = m;
            stalled = 0;
        } else {
            if stalled >= window {
                assert(rounds_end(*s, window, gs, *graph, FixpointEnd::Stalled));
                return FixpointEnd::Stalled;
            }
            stalled = stalled + 1;
        }
        if stalled >= window {
            assert(rounds_end(*s, window, gs, *graph, FixpointEnd::Stalled));
            return FixpointEnd::Stalled;
        }
        if let Some(cap) = s.max_rounds {
            if round >= cap {
                assert(rounds_end(*s, window, gs, *graph, FixpointEnd::Capped));
                return FixpointEnd::Capped;
            }
        }
    }
}

/// Whether the level has loop transformations.
pub open spec fn transforms_loops(level: OptLevel) -> bool {
    level == OptLevel::O2 || level == OptLevel::O3
}

/// What optimizing makes of a graph.
pub open spec fn optimized(
    s: OptSettings,
    level: OptLevel,
    report: Option<LoopAnalysisReport>,
    a: DataFlowGraph,
    b: DataFlowGraph,
    why: Option<FixpointEnd>,
) -> bool {
    match why {
        None => level == OptLevel::O0 && b == a,
        Some(w) => level != OptLevel::O0 && if transforms_loops(level) && report is Some {
            exists|m: DataFlowGraph| #[trigger]
                after_loops(s, report->0, a, m) && after_rounds(s, patience(level, s), m, b, w)
        } else {
            after_rounds(s, patience(level, s), a, b, w)
        },
    }
}

pub open spec fn loop_report(analysis: Option<&AnalysisReport>) -> Option<LoopAnalysisReport> {
    match analysis {
        Some(r) => Some(r.loop_analysis),
        None => None,
    }
}

/// Optimizes a graph, and tells why the rounds ended. Without an analysis no
/// loop is transformed.
pub fn optimize_with_settings(
    graph: &mut DataFlowGraph,
    analysis: Option<&AnalysisReport>,
    level: OptLevel,
    settings: &OptSettings,
) -> (why: Option<FixpointEnd>)
    ensures
        optimized(*settings, level, loop_report(analysis), *old(graph), *final(graph), why),
        consistent(*old(graph)) ==> consistent(*final(graph)),
{
    if level == OptLevel::O0 {
        return None;
    }
    if let Some(report) = analysis {
        if level == OptLevel::O2 || level == OptLevel::O3 {
            run_loop_phase(graph, report, settings);
        }
    }
    let window: u32 = match settings.stall_window {
        Some(n) => n,
        None => if level == OptLevel::O3 {
            30
        } else {
            10
        },
    };
    let ghost mid = *graph;
    let why = run_rounds(graph, settings, window);
    proof {
        if transforms_loops(level) && analysis is Some {
            assert(after_loops(*settings, loop_report(analysis)->0, *old(graph), mid));
        } else {
            assert(mid == *old(graph));
        }
    }
    Some(why)
}

/// Optimizes a graph with all passes.
pub fn optimize_with_analysis(graph: &mut DataFlowGraph, analysis: Option<&AnalysisReport>, level: OptLevel)
    ensures
        exists|why: Option<FixpointEnd>| #[trigger]
            optimized(all_passes(), level, loop_report(analysis), *old(graph), *final(graph), why),
        consistent(*old(graph)) ==> consistent(*final(graph)),
{
    let settings = OptSettings::default();
    optimize_with_settings(graph, analysis, level, &settings);
}

/// Optimizes a graph at the usual level, without transforming loops.
pub fn optimize(graph: &mut DataFlowGraph)
    ensures
        exists|why: Option<FixpointEnd>| #[trigger]
            optimized(all_passes(), OptLevel::O2, None, *old(graph), *final(graph), why),
        consistent(*old(graph)) ==> consistent(*final(graph)),
{
    optimize_with_analysis(graph, None, OptLevel::O2);
}

/// The measure cannot be brought down for ever: it is never less than nothing.
pub proof fn law_measure_is_well_founded(a: (nat, nat), b: (nat, nat), c: (nat, nat))
    ensures
        !less(a, a),
        less(a, b) && less(b, c) ==> less(a, c),
        less(a, b) || less(b, a) || a == b,
        !less(a, (0nat, 0nat)),
{
}

/// A pass that is switched off changes nothing.
pub proof fn law_passes_can_be_switched_off(
    limit: int,
    report: LoopAnalysisReport,
    g: DataFlowGraph,
    a: Stage,
    b: Stage,
)
    ensures
        inline_step(true, limit, a, b) ==> a == b,
        fold_step(true, a, b) ==> a == b,
        strength_pass(true, a, b) ==> a == b,
        cse_pass(true, g, a.ctx, b.ctx) ==> a.ctx == b.ctx,
        copy_pass(true, g, a.ctx, b.ctx) ==> a.ctx == b.ctx,
        dce_pass(true, g, a.ctx, b.ctx) ==> a.ctx == b.ctx,
        dse_pass(true, g, a.ctx, b.ctx) ==> a.ctx == b.ctx,
        func_dce_pass(true, g, a.ctx, b.ctx) ==> a.ctx == b.ctx,
        hoist_step(true, report, a, b) ==> a == b,
        unroll_step(true, report, a, b) ==> a == b,
{
    reveal(inline_step);
    reveal(fold_step);
    reveal(strength_pass);
    reveal(cse_pass);
    reveal(copy_pass);
    reveal(dce_pass);
    reveal(dse_pass);
    reveal(func_dce_pass);
    reveal(hoist_step);
    reveal(unroll_step);
}

/// A round runs the passes in their order, each as the settings have it: those
/// that rewrite nodes, then those that redirect them, then those that kill them.
pub proof fn law_passes_of_a_round(t: RoundTrace, s: OptSettings)
    requires
        t.runs(s),
    ensures
        inline_step(s.no_inline, inline_limit(s), t.start, t.inlined),
        fold_step(s.no_fold, t.inlined, t.folded),
        strength_pass(s.no_strength, t.folded, t.reduced),
        cse_pass(s.no_cse, t.reduced.graph, t.reduced.ctx, t.merged),
        copy_pass(s.no_copy, t.reduced.graph, t.merged, t.copied),
        dce_pass(s.no_dce, t.reduced.graph, t.copied, t.pruned),
        dse_pass(s.no_dse, t.reduced.graph, t.pruned, t.unstored),
        func_dce_pass(s.no_funcdce, t.reduced.graph, t.unstored, t.end),
        s.inline_limit matches Some(n) ==> inline_limit(s) == n,
{
}

/// The lowest level leaves the graph alone; the one above it runs rounds but
/// transforms no loops, whatever is known of them; the others do both.
pub proof fn law_levels(
    s: OptSettings,
    level: OptLevel,
    report: Option<LoopAnalysisReport>,
    a: DataFlowGraph,
    b: DataFlowGraph,
    why: Option<FixpointEnd>,
)
    requires
        optimized(s, level, report, a, b, why),
    ensures
        level == OptLevel::O0 <==> why is None,
        level == OptLevel::O0 ==> b == a,
        level == OptLevel::O1 || level != OptLevel::O0 && report is None ==> after_rounds(
            s,
            patience(level, s),
            a,
            b,
            why->0,
        ),
        (level == OptLevel::O2 || level == OptLevel::O3) && report is Some ==> exists|m: DataFlowGraph|
            #[trigger] after_loops(s, report->0, a, m) && after_rounds(s, patience(level, s), m, b, why->0),
        s.stall_window is None ==> patience(level, s) == if level == OptLevel::O3 {
            30
        } else {
            10u32
        },
        s.stall_window matches Some(n) ==> patience(level, s) == n,
{
}

/// What the rounds are measured by: the calls are counted one by one.
pub proof fn law_calls_are_counted(g: DataFlowGraph, n: int)
    requires
        0 <= n < g.nodes@.len(),
    ensures
        g.nodes@[n].kind == NodeKind::Call ==> call_count(g, n + 1) == call_count(g, n) + 1,
        g.nodes@[n].kind != NodeKind::Call ==> call_count(g, n + 1) == call_count(g, n),
        call_count(g, 0) == 0,
        measure(g).1 == g.nodes@.len(),
        measure(g).0 == call_count(g, g.nodes@.len() as int),
{
}

/// The best measure so far is that of one of the graphs, and none is below it.
pub proof fn law_the_best_is_least(gs: Seq<DataFlowGraph>, i: int)
    requires
        0 <= i < gs.len(),
    ensures
        exists|j: int| 0 <= j <= i && #[trigger] measure(gs[j]) == best_upto(gs, i),
        forall|j: int| 0 <= j <= i ==> !less(#[trigger] measure(gs[j]), best_upto(gs, i)),
    decreases i,
{
    if i > 0 {
        law_the_best_is_least(gs, i - 1);
        if less(measure(gs[i]), best_upto(gs, i - 1)) {
            assert(measure(gs[i]) == best_upto(gs, i));
        } else {
            let j = choose|j: int| 0 <= j <= i - 1 && #[trigger] measure(gs[j]) == best_upto(gs, i - 1);
            assert(measure(gs[j]) == best_upto(gs, i));
        }
    } else {
        assert(measure(gs[0]) == best_upto(gs, 0));
    }
}

/// Rounds end: there are no more of them than the limit, though always one, and
/// none follows as many rounds without gain as patience lasts.
pub proof fn law_rounds_end(s: OptSettings, window: u32, gs: Seq<DataFlowGraph>, i: int)
    requires
        rounds(s, window, gs),
    ensures
        s.max_rounds matches Some(c) ==> gs.len() - 1 <= if c > 0 {
            c as int
        } else {
            1
        },
        0 < i < gs.len() - 1 ==> stalled_upto(gs, i) < window,
{
    if 0 < i < gs.len() - 1 {
        assert(goes_on(window, s.max_rounds, gs, i));
    }
    if gs.len() >= 2 {
        assert(goes_on(window, s.max_rounds, gs, gs.len() - 2));
    }
}

/// A round gains exactly where no earlier graph measures as little, and the
/// rounds since then are counted.
pub proof fn law_gains_are_noticed(gs: Seq<DataFlowGraph>, i: int)
    requires
        0 < i < gs.len(),
    ensures
        stalled_upto(gs, i) == 0 <==> forall|j: int| 0 <= j < i ==> less(measure(gs[i]), #[trigger] measure(gs[j])),
        stalled_upto(gs, i) != 0 ==> stalled_upto(gs, i) == stalled_upto(gs, i - 1) + 1,
{
    law_the_best_is_least(gs, i - 1);
    let b = best_upto(gs, i - 1);
    let k = choose|j: int| 0 <= j <= i - 1 && #[trigger] measure(gs[j]) == b;
    if less(measure(gs[i]), b) {
        assert forall|j: int| 0 <= j < i implies less(measure(gs[i]), #[trigger] measure(gs[j])) by {
            assert(!less(measure(gs[j]), b));
        }
    } else {
        assert(!less(measure(gs[i]), measure(gs[k])));
    }
}

/// A node is listed with a branch that it launches where that branch's range
/// holds the node.
pub proof fn law_gates_in_their_own_branches_are_found(g: DataFlowGraph, i: u32, b: int)
    requires
        i < g.nodes@.len() <= u32::MAX,
        g.meta@[i as int].gate_branches is Some,
        0 <= b < g.meta@[i as int].gate_branches->0.branches@.len(),
        ({
            let sg = g.meta@[i as int].gate_branches->0.branches@[b].subgraph;
            sg.0 < g.subgraphs@.len() && g.subgraphs@[sg.0 as int].node_range.0.0 <= i
                < g.subgraphs@[sg.0 as int].node_range.1.0
        }),
    ensures
        gates_in_branches(g, g.nodes@.len() as int).contains(
            GateInBranch {
                gate: NodeId(i),
                when: g.meta@[i as int].gate_branches->0.branches@[b].when,
                branch: g.meta@[i as int].gate_branches->0.branches@[b].subgraph,
            },
        ),
{
    let bs = g.meta@[i as int].gate_branches->0.branches@;
    let x = GateInBranch { gate: NodeId(i), when: bs[b].when, branch: bs[b].subgraph };
    lemma_own_branch(g, i as int, bs.len() as int, b);
    lemma_gate_is_listed(g, g.nodes@.len() as int, i as int, x);
}

proof fn lemma_own_branch(g: DataFlowGraph, i: int, k: int, b: int)
    requires
        0 <= b < k,
        g.meta@[i].gate_branches is Some,
        holds_gate(g, i, b),
    ensures
        own_branches(g, i, k).contains(
            GateInBranch {
                gate: NodeId(i as u32),
                when: g.meta@[i].gate_branches->0.branches@[b].when,
                branch: g.meta@[i].gate_branches->0.branches@[b].subgraph,
            },
        ),
    decreases k,
{
    let bs = g.meta@[i].gate_branches->0.branches@;
    let x = GateInBranch { gate: NodeId(i as u32), when: bs[b].when, branch: bs[b].subgraph };
    let r = own_branches(g, i, k - 1);
    let y = GateInBranch { gate: NodeId(i as u32), when: bs[k - 1].when, branch: bs[k - 1].subgraph };
    if b < k - 1 {
        lemma_own_branch(g, i, k - 1, b);
        let j = choose|j: int| 0 <= j < r.len() && r[j] == x;
        assert(r.push(y)[j] == x);
    } else {
        assert(r.push(x)[r.len() as int] == x);
    }
}

proof fn lemma_gate_is_listed(g: DataFlowGraph, n: int, i: int, x: GateInBranch)
    requires
        0 <= i < n,
        g.meta@[i].gate_branches is Some,
        own_branches(g, i, g.meta@[i].gate_branches->0.branches@.len() as int).contains(x),
    ensures
        gates_in_branches(g, n).contains(x),
    decreases n,
{
    let a = gates_in_branches(g, n - 1);
    let b = match g.meta@[n - 1].gate_branches {
        Some(gb) => own_branches(g, n - 1, gb.branches@.len() as int),
        None => seq![],
    };
    if i < n - 1 {
        lemma_gate_is_listed(g, n - 1, i, x);
        let j = choose|j: int| 0 <= j < a.len() && a[j] == x;
        assert((a + b)[j] == x);
    } else {
        let j = choose|j: int| 0 <= j < b.len() && b[j] == x;
        assert((a + b)[a.len() + j] == x);
    }
}

} // verus!
