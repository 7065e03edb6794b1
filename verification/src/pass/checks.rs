//! Tests that a graph is fit for a pass. A pass runs only on a graph that has
//! passed its test, so that no pass can fail half-way.

use vstd::prelude::*;

use crate::fx::{IdMap, IdSet};
use crate::ir::compute_fns::{pure_compute_fn_set, pure_ids, CF_CALL_LAUNCH};
use crate::ir::graph::{is_function_sg, DataFlowGraph};
use crate::ir::layout::{positions, stays};
use crate::ir::rebuild::any_true;
use crate::ir::redirect::{acyclic, resolve_in};
use crate::ir::sg_refs::{is_meta_placed, is_sg_placed, meta_placed, sg_placed};
use crate::ir::refs::{all_below, meta_refs, sg_refs};
use crate::ir::types::{LoopKind, NodeId, SubGraphId};
use crate::pass::context::OptimizerContext;
use crate::pass::inline::{callee_wf, calls_wf, look_at_callee, looks_at_callee};
use crate::pass::licm::{
    hoisted_inputs, hoisted_nodes, input_total, lemma_hoisted_grows, lemma_input_total_grows, licm_wf, list_wf,
};
use crate::pass::liveness::{find_live_nodes, find_reachable, live_walkable, sg_refs_valid, walkable};
use crate::pass::loops::{
    body_of, find_body, invariant_views, is_loop, loop_wf, loops_wf, BodyInvariants, UnrollInfo,
};
use crate::pass::unroll::{
    body_uses_iterator, lemma_enclosing, lemma_unroll_total_grows, span_inputs, unroll_input_total, unroll_inputs,
    unroll_nodes, unroll_owner, unroll_total, unroll_wf, unrolls_wf, values_fit,
};

verus! {

/// Whether the nodes and their inputs fit the lists that they are in.
pub fn is_wf(g: &DataFlowGraph) -> (r: bool)
    ensures
        r == g.wf(),
{
    if g.meta.len() != g.nodes.len() || g.nodes.len() > 0xFFFF_FFFF || g.inputs_pool.len() > 0xFFFF_FFFF {
        return false;
    }
    let total = g.inputs_pool.len();
    let mut i: usize = 0;
    while i < g.nodes.len()
        invariant
            i <= g.nodes@.len(),
            total == g.inputs_pool@.len() <= u32::MAX,
            forall|k: int| #![trigger g.nodes@[k]]
                0 <= k < i ==> g.nodes@[k].inputs_offset + g.nodes@[k].input_count <= g.inputs_pool@.len(),
        decreases g.nodes@.len() - i,
    {
        let off: u64 = g.nodes[i].inputs_offset as u64;
        let count: u64 = g.nodes[i].input_count as u64;
        if off + count > total as u64 {
            assert(g.nodes@[i as int].inputs_offset + g.nodes@[i as int].input_count > g.inputs_pool@.len());
            return false;
        }
        i = i + 1;
    }
    true
}

fn are_below(ids: &[NodeId], n: usize) -> (r: bool)
    ensures
        r == all_below(ids@, n as int),
{
    let mut i: usize = 0;
    while i < ids.len()
        invariant
            i <= ids@.len(),
            forall|k: int| 0 <= k < i ==> (#[trigger] ids@[k]).0 < n,
        decreases ids@.len() - i,
    {
        if ids[i].0 as usize >= n {
            assert(!(ids@[i as int].0 < n));
            return false;
        }
        i = i + 1;
    }
    true
}

/// Whether every input of every node is a node.
pub fn has_valid_inputs(g: &DataFlowGraph) -> (r: bool)
    requires
        g.wf(),
    ensures
        r == g.inputs_wf(),
{
    let n = g.nodes.len();
    let mut i: usize = 0;
    while i < n
        invariant
            i <= n == g.nodes@.len(),
            g.wf(),
            forall|a: int, j: int| #![trigger g.inputs_of(a)[j]]
                0 <= a < i && 0 <= j < g.inputs_of(a).len() ==> g.inputs_of(a)[j].0 < n,
        decreases n - i,
    {
        let inputs = g.inputs(i);
        if !are_below(inputs, n) {
            proof {
                let j = choose|j: int| 0 <= j < inputs@.len() && !((#[trigger] inputs@[j]).0 < n);
                assert(!(g.inputs_of(i as int)[j].0 < n));
            }
            return false;
        }
        i = i + 1;
    }
    true
}

/// Whether all references of metadata and of subgraphs are to nodes.
pub fn has_valid_refs(g: &DataFlowGraph) -> (r: bool)
    requires
        g.wf(),
    ensures
        r == g.door_below(g.nodes@.len() as int),
{
    let n = g.nodes.len();
    let mut i: usize = 0;
    while i < n
        invariant
            i <= n == g.nodes@.len(),
            g.wf(),
            forall|a: int| 0 <= a < i ==> all_below(#[trigger] meta_refs(g.meta@[a]), n as int),
        decreases n - i,
    {
        let mut refs: Vec<NodeId> = Vec::new();
        g.node_meta_refs(i, &mut refs);
        assert(refs@ =~= meta_refs(g.meta@[i as int]));
        if !are_below(refs.as_slice(), n) {
            assert(!all_below(meta_refs(g.meta@[i as int]), n as int));
            return false;
        }
        i = i + 1;
    }
    let mut s: usize = 0;
    while s < g.subgraphs.len()
        invariant
            s <= g.subgraphs@.len(),
            n == g.nodes@.len(),
            g.wf(),
            forall|a: int| 0 <= a < s ==> all_below(#[trigger] sg_refs(g.subgraphs@[a]), n as int),
        decreases g.subgraphs@.len() - s,
    {
        let mut refs: Vec<NodeId> = Vec::new();
        g.sg_anchor_refs(s, &mut refs);
        assert(refs@ =~= sg_refs(g.subgraphs@[s as int]));
        if !are_below(refs.as_slice(), n) {
            assert(!all_below(sg_refs(g.subgraphs@[s as int]), n as int));
            return false;
        }
        s = s + 1;
    }
    true
}

/// Whether the graph can be walked along its inputs and references.
pub fn is_walkable(g: &DataFlowGraph) -> (r: bool)
    ensures
        r == walkable(g),
{
    is_wf(g) && has_valid_inputs(g) && has_valid_refs(g)
}

/// Whether every function's id is the place of a subgraph.
pub fn has_valid_function_ids(g: &DataFlowGraph) -> (r: bool)
    ensures
        r == g.function_ids_wf(),
{
    if g.subgraphs.len() > 0xFFFF_FFFF {
        return false;
    }
    let n = g.subgraphs.len();
    let mut s: usize = 0;
    while s < n
        invariant
            s <= n == g.subgraphs@.len() <= u32::MAX,
            forall|a: int| #![trigger g.subgraphs@[a]]
                0 <= a < s && is_function_sg(g.subgraphs@[a]) ==> g.subgraphs@[a].id.0 < n,
        decreases n - s,
    {
        if g.is_function_subgraph(s) && g.subgraphs[s].id.0 as usize >= n {
            assert(g.subgraphs@[s as int].id.0 >= n);
            return false;
        }
        s = s + 1;
    }
    true
}

/// Whether the callees that inlining looks at can be looked through.
pub fn can_inline(g: &DataFlowGraph) -> (r: bool)
    ensures
        r == calls_wf(g),
{
    if !is_wf(g) || g.subgraphs.len() > 0xFFFF_FFFF {
        return false;
    }
    let n = g.nodes.len();
    let pure_set = pure_compute_fn_set();
    let mut i: usize = 0;
    while i < n
        invariant
            i <= n == g.nodes@.len(),
            g.wf(),
            g.subgraphs@.len() <= u32::MAX,
            pure_set@ == pure_ids(),
            forall|a: int| #![trigger g.meta@[a]]
                0 <= a < i && looks_at_callee(g, a) ==> {
                    let t = g.meta@[a].call_target->0;
                    t.0 < g.subgraphs@.len() && callee_wf(g, g.subgraphs@[t.0 as int])
                },
        decreases n - i,
    {
        if g.nodes[i].compute_fn.0 == CF_CALL_LAUNCH && !g.meta[i].tail_call {
            if let Some(t) = g.meta[i].call_target {
                let ghost bad = g.meta@[i as int];
                assert(bad.call_target is Some && looks_at_callee(g, i as int));
                if t.0 as usize >= g.subgraphs.len() || look_at_callee(g, t, &pure_set).is_none() {
                    return false;
                }
            }
        }
        i = i + 1;
    }
    true
}

/// Whether the walk over what is called stays in the graph.
pub fn has_valid_sg_refs(g: &DataFlowGraph, ctx: &OptimizerContext) -> (r: bool)
    requires
        g.wf(),
    ensures
        r == sg_refs_valid(g, ctx.dead@, ctx.redirect@),
{
    let owners = g.node_owners();
    find_reachable(g, ctx, &owners).is_some()
}

/// Whether the walk over what is live stays in the graph.
pub fn has_valid_live_nodes(g: &DataFlowGraph, ctx: &OptimizerContext) -> (r: bool)
    requires
        g.wf(),
        acyclic(ctx.redirect@),
    ensures
        r == live_walkable(g, ctx.redirect@),
{
    find_live_nodes(g, ctx).is_some()
}

fn do_land(g: &DataFlowGraph, ids: &[NodeId], dead: &IdSet, redirect: &IdMap) -> (r: bool)
    requires
        g.nodes@.len() <= u32::MAX,
        acyclic(redirect@),
    ensures
        r == g.all_land(dead@, redirect@, ids@),
{
    let n = g.nodes.len();
    let mut i: usize = 0;
    while i < ids.len()
        invariant
            i <= ids@.len(),
            n == g.nodes@.len() <= u32::MAX,
            acyclic(redirect@),
            forall|k: int| 0 <= k < i ==> g.lands(dead@, redirect@, #[trigger] ids@[k]),
        decreases ids@.len() - i,
    {
        let id = ids[i];
        let to = resolve_in(redirect, id.0);
        let ok: bool = (id.0 as usize) < n && (to as usize) < n && DataFlowGraph::node_stays(
            dead,
            redirect,
            to as usize,
        );
        assert(ok == g.lands(dead@, redirect@, ids@[i as int]));
        if !ok {
            return false;
        }
        i = i + 1;
    }
    true
}

/// Whether subgraphs can be renumbered, where some are dropped.
fn are_sg_refs_placed(
    g: &DataFlowGraph,
    dead: &IdSet,
    redirect: &IdMap,
    dead_sgs: &IdSet,
    removed: &Vec<bool>,
) -> (r: bool)
    requires
        g.wf(),
        removed@ == g.dropped(dead@, redirect@, dead_sgs@),
    ensures
        r == g.sg_refs_placed(dead@, redirect@, dead_sgs@),
{
    proof {
        reveal(DataFlowGraph::sg_refs_placed);
    }
    let n = g.subgraphs.len();
    if !any_true(removed) {
        return true;
    }
    if let Some(e) = g.entry_subgraph {
        if e.0 as usize >= n {
            return false;
        }
    }
    let mut k: usize = 0;
    while k < g.vtable_fallback_dispatch.len()
        invariant
            n == g.subgraphs@.len(),
            removed@ == g.dropped(dead@, redirect@, dead_sgs@),
            (exists|a: int| 0 <= a < removed@.len() && #[trigger] removed@[a]),
            k <= g.vtable_fallback_dispatch@.len(),
            forall|a: int| 0 <= a < k ==> (#[trigger] g.vtable_fallback_dispatch@[a]).target.0 < n,
        decreases g.vtable_fallback_dispatch@.len() - k,
    {
        if g.vtable_fallback_dispatch[k].target.0 as usize >= n {
            proof {
                reveal(DataFlowGraph::sg_refs_placed);
                assert(g.vtable_fallback_dispatch@[k as int].target.0 >= n);
            }
            return false;
        }
        k = k + 1;
    }
    let mut i: usize = 0;
    while i < g.nodes.len()
        invariant
            n == g.subgraphs@.len(),
            removed@ == g.dropped(dead@, redirect@, dead_sgs@),
            (exists|a: int| 0 <= a < removed@.len() && #[trigger] removed@[a]),
            i <= g.nodes@.len() == g.meta@.len() <= u32::MAX,
            forall|a: int| 0 <= a < i && stays(dead@, redirect@, a) ==> meta_placed(#[trigger] g.meta@[a], n as int),
        decreases g.nodes@.len() - i,
    {
        if DataFlowGraph::node_stays(dead, redirect, i) && !is_meta_placed(&g.meta[i], n) {
            proof {
                reveal(DataFlowGraph::sg_refs_placed);
                assert(!meta_placed(g.meta@[i as int], n as int));
            }
            return false;
        }
        i = i + 1;
    }
    let mut t: usize = 0;
    while t < n
        invariant
            n == g.subgraphs@.len(),
            removed@ == g.dropped(dead@, redirect@, dead_sgs@),
            (exists|a: int| 0 <= a < removed@.len() && #[trigger] removed@[a]),
            t <= n == g.subgraphs@.len() == removed@.len(),
            forall|a: int| 0 <= a < t && !removed@[a] ==> sg_placed(#[trigger] g.subgraphs@[a], n as int),
        decreases n - t,
    {
        if !removed[t] && !is_sg_placed(&g.subgraphs[t], n) {
            proof {
                reveal(DataFlowGraph::sg_refs_placed);
                assert(!sg_placed(g.subgraphs@[t as int], n as int));
            }
            return false;
        }
        t = t + 1;
    }
    true
}

/// Whether the graph can be compacted: whatever stays refers to what stays.
pub fn is_rebuildable(g: &DataFlowGraph, dead: &IdSet, redirect: &IdMap, dead_sgs: &IdSet) -> (r: bool)
    requires
        acyclic(redirect@),
    ensures
        r == g.rebuildable(dead@, redirect@, dead_sgs@),
{
    if !is_wf(g) || !has_valid_function_ids(g) {
        return false;
    }
    let mut i: usize = 0;
    while i < g.nodes.len()
        invariant
            i <= g.nodes@.len(),
            g.wf(),
            acyclic(redirect@),
            forall|a: int| #![trigger g.nodes@[a]]
                0 <= a < i && stays(dead@, redirect@, a) ==> g.all_land(dead@, redirect@, g.inputs_of(a)),
            forall|a: int| #![trigger g.meta@[a]]
                0 <= a < i && stays(dead@, redirect@, a) ==> g.all_land(dead@, redirect@, meta_refs(g.meta@[a])),
        decreases g.nodes@.len() - i,
    {
        if DataFlowGraph::node_stays(dead, redirect, i) {
            let ghost node = g.nodes@[i as int];
            let ghost meta = g.meta@[i as int];
            if !do_land(g, g.inputs(i), dead, redirect) {
                return false;
            }
            let mut refs: Vec<NodeId> = Vec::new();
            g.node_meta_refs(i, &mut refs);
            assert(refs@ =~= meta_refs(g.meta@[i as int]));
            if !do_land(g, refs.as_slice(), dead, redirect) {
                assert(!g.all_land(dead@, redirect@, meta_refs(g.meta@[i as int])));
                return false;
            }
        }
        i = i + 1;
    }
    let owners = g.node_owners();
    let (_o2n, n2o) = g.number_nodes(dead, redirect, &owners);
    let ghost layout = g.layout(dead@, redirect@);
    proof {
        assert forall|k: int| 0 <= k < n2o@.len() implies (#[trigger] n2o@[k]) < g.meta@.len() by {
            assert(positions(n2o@)[k] == n2o@[k]);
        }
    }
    let removed = g.dropped_subgraphs(&n2o, dead_sgs);
    assert(removed@ =~= g.dropped(dead@, redirect@, dead_sgs@));
    let mut s: usize = 0;
    while s < g.subgraphs.len()
        invariant
            s <= g.subgraphs@.len(),
            g.wf(),
            acyclic(redirect@),
            removed@ == g.dropped(dead@, redirect@, dead_sgs@),
            removed@.len() == g.subgraphs@.len(),
            forall|a: int| #![trigger g.subgraphs@[a]]
                0 <= a < s && !removed@[a] ==> g.all_land(dead@, redirect@, sg_refs(g.subgraphs@[a])),
        decreases g.subgraphs@.len() - s,
    {
        if !removed[s] {
            let ghost sg = g.subgraphs@[s as int];
            let mut refs: Vec<NodeId> = Vec::new();
            g.sg_anchor_refs(s, &mut refs);
            assert(refs@ =~= sg_refs(g.subgraphs@[s as int]));
            if !do_land(g, refs.as_slice(), dead, redirect) {
                assert(!g.all_land(dead@, redirect@, sg_refs(g.subgraphs@[s as int])));
                return false;
            }
        }
        s = s + 1;
    }
    if !are_sg_refs_placed(g, dead, redirect, dead_sgs, &removed) {
        return false;
    }
    let mut total: u64 = 0;
    let mut k: usize = 0;
    while k < n2o.len()
        invariant
            k <= n2o@.len(),
            positions(n2o@) == layout,
            layout == g.layout(dead@, redirect@),
            forall|a: int| 0 <= a < n2o@.len() ==> (#[trigger] n2o@[a]) < g.nodes@.len(),
            total == g.input_sum(layout, k as int),
            total <= u32::MAX,
        decreases n2o@.len() - k,
    {
        assert(positions(n2o@)[k as int] == n2o@[k as int]);
        total = total + g.nodes[n2o[k]].input_count as u64;
        k = k + 1;
        if total > 0xFFFF_FFFF {
            proof {
                lemma_input_sum_grows(g, layout, k as int, layout.len() as int);
            }
            return false;
        }
    }
    true
}

proof fn lemma_input_sum_grows(g: &DataFlowGraph, layout: Seq<int>, a: int, b: int)
    requires
        0 <= a <= b,
    ensures
        g.input_sum(layout, a) <= g.input_sum(layout, b),
    decreases b - a,
{
    if a < b {
        lemma_input_sum_grows(g, layout, a, b - 1);
    }
}


// ---- loops -----------------------------------------------------------------

/// Whether the loops can be analyzed.
pub fn can_analyze_loops(g: &DataFlowGraph) -> (r: bool)
    ensures
        r == loops_wf(g),
{
    if !is_wf(g) || g.subgraphs.len() > 0xFFFF_FFFF {
        return false;
    }
    let n = g.nodes.len();
    let mut s: usize = 0;
    while s < g.subgraphs.len()
        invariant
            s <= g.subgraphs@.len() <= u32::MAX,
            g.wf(),
            n == g.nodes@.len(),
            forall|a: int| #![trigger g.subgraphs@[a]]
                0 <= a < s && is_loop(g.subgraphs@[a]) && body_of(g, a, 0) is Some ==> loop_wf(
                    g,
                    g.subgraphs@[a],
                    g.subgraphs@[body_of(g, a, 0)->0],
                ),
        decreases g.subgraphs@.len() - s,
    {
        let sg = &g.subgraphs[s];
        if sg.loop_kind != LoopKind::NotLoop && sg.loop_kind != LoopKind::LoopBody {
            if let Some(b) = find_body(g, s) {
                let body = g.subgraphs[b].node_range;
                let driver_ok: bool = match sg.iter_next_node {
                    Some(x) => (x.0 as usize) < n,
                    None => true,
                };
                let ok: bool = sg.node_range.1.0 as usize <= n && body.0.0 <= body.1.0 && body.1.0 as usize <= n
                    && body.0.0 < 0xFFFF_FFFF && driver_ok;
                assert(ok == loop_wf(g, g.subgraphs@[s as int], g.subgraphs@[body_of(g, s as int, 0)->0]));
                if !ok {
                    return false;
                }
            }
        }
        s = s + 1;
    }
    true
}

/// Whether the invariants can be hoisted.
pub fn can_hoist(g: &DataFlowGraph, lists: &Vec<BodyInvariants>) -> (r: bool)
    ensures
        r == licm_wf(g, invariant_views(lists@)),
{
    if !is_wf(g) {
        return false;
    }
    let ghost views = invariant_views(lists@);
    let n = g.nodes.len();
    let count = g.subgraphs.len();
    let mut nodes: u64 = 0;
    let mut inputs: u64 = 0;
    let mut k: usize = 0;
    while k < lists.len()
        invariant
            k <= lists@.len(),
            g.wf(),
            n == g.nodes@.len(),
            count == g.subgraphs@.len(),
            views == invariant_views(lists@),
            nodes == hoisted_nodes(g, views, k as int),
            inputs == hoisted_inputs(g, views, k as int),
            nodes <= u32::MAX,
            inputs <= u32::MAX,
            forall|a: int| #![trigger views[a]] 0 <= a < k ==> list_wf(g, views[a].0, views[a].1),
        decreases lists@.len() - k,
    {
        let list = &lists[k];
        let ghost v = views[k as int];
        assert(v.0 == list.body_sg && v.1 == list.nodes@);
        if list.body_sg.0 as usize >= count {
            return false;
        }
        if let Some(p) = g.subgraphs[list.body_sg.0 as usize].loop_parent_sg {
            if p.0 as usize >= count {
                return false;
            }
            if !are_below(list.nodes.as_slice(), n) {
                proof {
                    let j = choose|j: int| 0 <= j < list.nodes@.len() && !((#[trigger] list.nodes@[j]).0 < n);
                    assert(!(v.1[j].0 < g.nodes@.len()));
                }
                return false;
            }
            proof {
                lemma_hoisted_grows(g, views, k + 1, views.len() as int);
            }
            let more: u64 = list.nodes.len() as u64;
            if more > 0xFFFF_FFFF || nodes + more > 0xFFFF_FFFF {
                return false;
            }
            nodes = nodes + more;
            match count_inputs(g, &list.nodes) {
                None => {
                    return false;
                },
                Some(c) => {
                    if inputs + c > 0xFFFF_FFFF {
                        return false;
                    }
                    inputs = inputs + c;
                },
            }
        }
        k = k + 1;
    }
    n as u64 + nodes <= 0xFFFF_FFFF && g.inputs_pool.len() as u64 + inputs <= 0xFFFF_FFFF
}

/// Number of inputs of the listed nodes, if it can be numbered.
fn count_inputs(g: &DataFlowGraph, list: &Vec<NodeId>) -> (r: Option<u64>)
    requires
        forall|j: int| 0 <= j < list@.len() ==> (#[trigger] list@[j]).0 < g.nodes@.len(),
    ensures
        match r {
            Some(c) => c == input_total(g, list@) && c <= u32::MAX,
            None => input_total(g, list@) > u32::MAX,
        },
{
    let mut c: u64 = 0;
    let mut j: usize = 0;
    while j < list.len()
        invariant
            j <= list@.len(),
            forall|a: int| 0 <= a < list@.len() ==> (#[trigger] list@[a]).0 < g.nodes@.len(),
            c == input_total(g, list@.take(j as int)),
            c <= u32::MAX,
        decreases list@.len() - j,
    {
        let id = list[j].0 as usize;
        assert(list@[j as int].0 < g.nodes@.len());
        c = c + g.nodes[id].input_count as u64;
        proof {
            assert(list@.take(j + 1).drop_last() =~= list@.take(j as int));
            assert(list@.take(j + 1).last() == list@[j as int]);
        }
        j = j + 1;
        if c > 0xFFFF_FFFF {
            proof {
                lemma_input_total_grows(g, list@, j as int);
            }
            return None;
        }
    }
    assert(list@.take(list@.len() as int) =~= list@);
    Some(c)
}

/// The values of a loop variable fit, if the last one does.
proof fn lemma_values_fit(start: int, step: int, last: int)
    requires
        last >= 0,
        i128::MIN <= start <= i128::MAX,
    ensures
        (i128::MIN <= step * last <= i128::MAX && i128::MIN <= start + step * last <= i128::MAX) <==> forall|i: int|
            0 <= i <= last ==> i128::MIN <= step * i <= i128::MAX && i128::MIN <= start + #[trigger] (step * i)
                <= i128::MAX,
{
    if i128::MIN <= step * last <= i128::MAX && i128::MIN <= start + step * last <= i128::MAX {
        assert forall|i: int| 0 <= i <= last implies i128::MIN <= step * i <= i128::MAX && i128::MIN <= start
            + #[trigger] (step * i) <= i128::MAX by {
            if step >= 0 {
                assert(0 <= step * i <= step * last) by (nonlinear_arith)
                    requires
                        0 <= i <= last,
                        step >= 0,
                ;
            } else {
                assert(step * last <= step * i <= 0) by (nonlinear_arith)
                    requires
                        0 <= i <= last,
                        step < 0,
                ;
            }
        }
    }
    if forall|i: int|
        0 <= i <= last ==> i128::MIN <= step * i <= i128::MAX && i128::MIN <= start + #[trigger] (step * i)
            <= i128::MAX {
        assert(i128::MIN <= start + step * last <= i128::MAX);
    }
}

/// Whether all values of the loop variable fit.
fn do_values_fit(info: &UnrollInfo) -> (r: bool)
    ensures
        r == values_fit(*info),
{
    if info.trip_count == 0 {
        return true;
    }
    let last: i128 = (info.trip_count - 1) as i128;
    proof {
        lemma_values_fit(info.start_value as int, info.step as int, last as int);
    }
    match info.step.checked_mul(last) {
        Some(d) => info.start_value.checked_add(d).is_some(),
        None => false,
    }
}

/// Whether one loop can be looked at, and then whether it is unrolled.
fn can_unroll_one(g: &DataFlowGraph, sg: SubGraphId, info: &UnrollInfo) -> (r: Option<bool>)
    requires
        g.wf(),
    ensures
        match r {
            Some(u) => unroll_wf(g, sg, *info) && u == (unroll_owner(g, sg, *info) is Some),
            None => !unroll_wf(g, sg, *info),
        },
{
    let count = g.subgraphs.len();
    let n = g.nodes.len();
    if sg.0 as usize >= count || count > 0xFFFF_FFFF {
        return None;
    }
    let range = g.subgraphs[sg.0 as usize].node_range;
    if range.0.0 > range.1.0 {
        return None;
    }
    let parent = g.find_immediate_parent_sg(sg);
    proof {
        lemma_enclosing(g, sg, parent);
    }
    if parent.is_none() {
        return Some(false);
    }
    if info.body_sg.0 as usize >= count {
        return None;
    }
    let body = g.subgraphs[info.body_sg.0 as usize].node_range;
    if body.1.0 as usize > n || body.0.0 > 0xFFFF_FFFF - 2 {
        return None;
    }
    if body_uses_iterator(g, body.0.0, body.1.0) {
        return Some(false);
    }
    if range.1.0 as usize > n || !do_values_fit(info) {
        return None;
    }
    Some(true)
}

/// Whether the loops can be unrolled.
pub fn can_unroll(g: &DataFlowGraph, loops: &Vec<(SubGraphId, UnrollInfo)>) -> (r: bool)
    ensures
        r == unrolls_wf(g, loops@),
{
    if !is_wf(g) {
        return false;
    }
    let mut total: u64 = 0;
    let mut inputs: u64 = 0;
    let mut k: usize = 0;
    while k < loops.len()
        invariant
            k <= loops@.len(),
            g.wf(),
            total == unroll_total(g, loops@, k as int),
            total <= u32::MAX,
            inputs == unroll_input_total(g, loops@, k as int),
            inputs <= u32::MAX,
            forall|a: int| #![trigger loops@[a]] 0 <= a < k ==> unroll_wf(g, loops@[a].0, loops@[a].1),
        decreases loops@.len() - k,
    {
        let item = &loops[k];
        proof {
            lemma_unroll_total_grows(g, loops@, k + 1, loops@.len() as int);
        }
        let unrolls: bool = match can_unroll_one(g, item.0, &item.1) {
            None => {
                assert(!unroll_wf(g, loops@[k as int].0, loops@[k as int].1));
                return false;
            },
            Some(u) => u,
        };
        if unrolls {
            let body = g.subgraphs[item.1.body_sg.0 as usize].node_range;
            let lo: u64 = body.0.0 as u64 + 2;
            let hi: u64 = body.1.0 as u64;
            let per: u64 = 1 + if lo < hi {
                hi - lo
            } else {
                0
            };
            let each = count_span_inputs(g, lo, hi);
            let trips: u64 = item.1.trip_count as u64;
            let more: u128 = mul_wide(trips, per);
            assert(more == unroll_nodes(g, item.1));
            let more_inputs: u128 = mul_wide(trips, each);
            assert(more_inputs == unroll_inputs(g, item.1));
            if more > 0xFFFF_FFFF || total as u128 + more > 0xFFFF_FFFF {
                return false;
            }
            if more_inputs > 0xFFFF_FFFF || inputs as u128 + more_inputs > 0xFFFF_FFFF {
                return false;
            }
            total = total + more as u64;
            inputs = inputs + more_inputs as u64;
        }
        k = k + 1;
    }
    g.nodes.len() as u64 + total <= 0xFFFF_FFFF && g.inputs_pool.len() as u64 + inputs <= 0xFFFF_FFFF
}

fn mul_wide(a: u64, b: u64) -> (r: u128)
    ensures
        r == a * b,
{
    assert(0 <= a * b <= 0xFFFF_FFFF_FFFF_FFFF * 0xFFFF_FFFF_FFFF_FFFF) by (nonlinear_arith)
        requires
            0 <= a <= 0xFFFF_FFFF_FFFF_FFFF,
            0 <= b <= 0xFFFF_FFFF_FFFF_FFFF,
    ;
    a as u128 * b as u128
}

/// Number of inputs of the nodes of [lo, hi).
fn count_span_inputs(g: &DataFlowGraph, lo: u64, hi: u64) -> (c: u64)
    requires
        hi <= g.nodes@.len() <= u32::MAX,
    ensures
        c == span_inputs(g, lo as int, hi as int),
{
    let mut c: u64 = 0;
    let mut i: u64 = lo;
    while i < hi
        invariant
            hi <= g.nodes@.len() <= u32::MAX,
            lo <= i,
            i <= hi || i == lo,
            c == span_inputs(g, lo as int, i as int),
            c <= 255 * (i - lo),
        decreases hi - i,
    {
        c = c + g.nodes[i as usize].input_count as u64;
        i = i + 1;
    }
    c
}

} // verus!
