//! Liveness: which nodes are needed, and which functions are reachable.
//!
//! Both are computed from the one enumeration of references that compaction
//! uses too, so that a node that compaction keeps a reference to is never
//! taken for dead.

use vstd::prelude::*;

use crate::fx::{IdMap, IdSet};
use crate::ir::compute_fns::{is_control_flow_compute_fn, is_control_flow_id};
use crate::ir::graph::DataFlowGraph;
use crate::ir::layout::stays;
use crate::ir::meta::NO_OWNER;
use crate::ir::redirect::{acyclic, lemma_resolved_below, resolved};
use crate::ir::refs::{law_anchors_are_listed, law_metadata_is_listed, all_below, all_meta_refs, all_sg_refs, labelled, meta_refs, sg_refs};
use crate::ir::reset_plan::{lemma_unvisited, unvisited};
use crate::ir::sg_refs::{meta_sgs, meta_subgraphs};
use crate::ir::types::{NodeId, NodeRefSite, SubGraphId};
use crate::pass::context::OptimizerContext;

verus! {

/// Whether a node must not be eliminated or redirected: it writes back, sets
/// a field, stores a global, raises a control signal, calls out, or is a tail
/// call.
pub open spec fn side_effect(g: &DataFlowGraph, i: int) -> bool {
    ||| g.meta@[i].writeback_target is Some
    ||| g.meta@[i].field_set_name is Some
    ||| g.meta@[i].global_store_slot is Some
    ||| is_control_flow_id(g.nodes@[i].compute_fn.0)
    ||| g.meta@[i].ffi_call_name is Some
    ||| g.meta@[i].tail_call
}

/// Whether the node has side effects.
pub fn has_side_effect(graph: &DataFlowGraph, idx: usize) -> (r: bool)
    requires
        idx < graph.nodes@.len(),
        graph.meta@.len() == graph.nodes@.len(),
    ensures
        r == side_effect(graph, idx as int),
{
    let m = &graph.meta[idx];
    m.writeback_target.is_some() || m.field_set_name.is_some() || m.global_store_slot.is_some()
        || is_control_flow_compute_fn(graph.nodes[idx].compute_fn) || m.ffi_call_name.is_some()
        || m.tail_call
}

/// Whether some writeback overwrites the node.
pub open spec fn is_writeback_target(g: &DataFlowGraph, id: u32) -> bool {
    exists|i: int|
        0 <= i < g.meta@.len() && (#[trigger] g.meta@[i]).writeback_target == Some(NodeId(id))
}

/// The nodes that writebacks overwrite: their values change at run time, so
/// they are neither constants nor merge partners.
pub fn collect_writeback_targets(graph: &DataFlowGraph) -> (s: IdSet)
    ensures
        forall|id: u32| #[trigger] s@.contains(id) <==> is_writeback_target(graph, id),
{
    let mut s = IdSet::new();
    let mut i: usize = 0;
    while i < graph.meta.len()
        invariant
            i <= graph.meta@.len(),
            forall|id: u32| #[trigger]
                s@.contains(id) <==> exists|k: int|
                    0 <= k < i && (#[trigger] graph.meta@[k]).writeback_target == Some(NodeId(id)),
        decreases graph.meta@.len() - i,
    {
        let ghost was = s@;
        if let Some(t) = graph.meta[i].writeback_target {
            s.insert(t.0);
        }
        assert forall|id: u32| #[trigger] s@.contains(id) <==> exists|k: int|
            0 <= k < i + 1 && (#[trigger] graph.meta@[k]).writeback_target == Some(NodeId(id)) by {
            if s@.contains(id) && !was.contains(id) {
                assert(graph.meta@[i as int].writeback_target == Some(NodeId(id)));
            }
            if was.contains(id) {
                let k = choose|k: int|
                    0 <= k < i && (#[trigger] graph.meta@[k]).writeback_target == Some(NodeId(id));
                assert(0 <= k < i + 1);
            }
        }
        i = i + 1;
    }
    s
}

/// The graph can be walked: nodes and metadata agree, and every input and
/// every reference is a node.
pub open spec fn walkable(g: &DataFlowGraph) -> bool {
    g.wf() && g.inputs_wf() && g.door_below(g.nodes@.len() as int)
}

/// Whether node `n` uses `id`, as an input or in its metadata.
pub open spec fn uses(g: &DataFlowGraph, n: int, id: NodeId) -> bool {
    g.inputs_of(n).contains(id) || meta_refs(g.meta@[n]).contains(id)
}

/// Whether the graph's structure needs the node in itself: some metadata or
/// anchor refers to it, or it has a side effect.
pub open spec fn live_seed(g: &DataFlowGraph, id: NodeId) -> bool {
    ||| exists|i: int| 0 <= i < g.meta@.len() && meta_refs(#[trigger] g.meta@[i]).contains(id)
    ||| exists|s: int|
        0 <= s < g.subgraphs@.len() && sg_refs(#[trigger] g.subgraphs@[s]).contains(id)
    ||| id.0 < g.nodes@.len() && side_effect(g, id.0 as int)
}

/// A set that holds every seed, and with a node everything it uses; all up to
/// redirects.
pub open spec fn live_closed(g: &DataFlowGraph, redirect: Map<u32, u32>, s: Set<u32>) -> bool {
    &&& forall|id: NodeId| #[trigger] live_seed(g, id) ==> s.contains(resolved(redirect, id.0))
    &&& forall|n: u32, id: NodeId|
        n < g.nodes@.len() && s.contains(n) && #[trigger] uses(g, n as int, id) ==> s.contains(
            resolved(redirect, id.0),
        )
}

/// The live nodes: those in every such set.
pub open spec fn live_nodes(g: &DataFlowGraph, redirect: Map<u32, u32>) -> Set<u32> {
    Set::new(|i: u32| forall|s: Set<u32>| live_closed(g, redirect, s) ==> s.contains(i))
}

/// The walk from the seeds stays in the graph: every live id is a node.
pub open spec fn live_walkable(g: &DataFlowGraph, redirect: Map<u32, u32>) -> bool {
    g.wf() && forall|n: u32| #[trigger] live_nodes(g, redirect).contains(n) ==> n < g.nodes@.len()
}

/// In a graph in which everything that is referred to is a node, the walk does
/// so where redirects lead to nodes.
pub proof fn law_walks_stay_in_a_walkable_graph(g: &DataFlowGraph, redirect: Map<u32, u32>)
    requires
        walkable(g),
        acyclic(redirect),
        forall|k: u32| #[trigger] redirect.contains_key(k) ==> redirect[k] < g.nodes@.len(),
    ensures
        live_walkable(g, redirect),
{
    let n = g.nodes@.len() as int;
    let s = Set::new(|i: u32| i < n);
    assert(live_closed(g, redirect, s)) by {
        assert forall|id: NodeId| #[trigger] live_seed(g, id) implies s.contains(resolved(redirect, id.0)) by {
            if !(id.0 < n && side_effect(g, id.0 as int)) {
                if exists|i: int| 0 <= i < g.meta@.len() && meta_refs(#[trigger] g.meta@[i]).contains(id) {
                    let i = choose|i: int| 0 <= i < g.meta@.len() && meta_refs(#[trigger] g.meta@[i]).contains(id);
                    let ids = meta_refs(g.meta@[i]);
                    let k = choose|k: int| 0 <= k < ids.len() && ids[k] == id;
                    assert(all_below(ids, n));
                } else {
                    let i = choose|i: int|
                        0 <= i < g.subgraphs@.len() && sg_refs(#[trigger] g.subgraphs@[i]).contains(id);
                    let ids = sg_refs(g.subgraphs@[i]);
                    let k = choose|k: int| 0 <= k < ids.len() && ids[k] == id;
                    assert(all_below(ids, n));
                }
            }
            lemma_resolved_below(redirect, id.0, n);
        }
        assert forall|m: u32, id: NodeId|
            m < g.nodes@.len() && s.contains(m) && #[trigger] uses(g, m as int, id) implies s.contains(
            resolved(redirect, id.0),
        ) by {
            lemma_used_ids_below(g, m as int, id);
            lemma_resolved_below(redirect, id.0, n);
        }
    }
    assert forall|m: u32| #[trigger] live_nodes(g, redirect).contains(m) implies m < g.nodes@.len() by {
        assert(s.contains(m));
    }
}

/// All ids marked so far are live.
spec fn sound(g: &DataFlowGraph, redirect: Map<u32, u32>, marked: Set<u32>) -> bool {
    forall|s: Set<u32>, i: u32| #[trigger]
        live_closed(g, redirect, s) && #[trigger] marked.contains(i) ==> s.contains(i)
}

/// Everything marked is a node, and what it uses is marked unless it is still
/// on the stack.
spec fn closed_but(
    g: &DataFlowGraph,
    redirect: Map<u32, u32>,
    marked: Set<u32>,
    stack: Seq<u32>,
) -> bool {
    &&& forall|n: u32| #[trigger] marked.contains(n) ==> n < g.nodes@.len()
    &&& forall|k: int| 0 <= k < stack.len() ==> marked.contains(#[trigger] stack[k])
    &&& forall|n: u32, id: NodeId|
        marked.contains(n) && !stack.contains(n) && #[trigger] uses(g, n as int, id)
            ==> marked.contains(resolved(redirect, id.0))
}

/// Marks the node that the id stands for; tells whether it is a node.
fn mark(
    graph: &DataFlowGraph,
    ctx: &OptimizerContext,
    id: NodeId,
    live: &mut IdSet,
    stack: &mut Vec<u32>,
) -> (ok: bool)
    requires
        acyclic(ctx.redirect@),
        sound(graph, ctx.redirect@, old(live)@),
        forall|s: Set<u32>| #[trigger]
            live_closed(graph, ctx.redirect@, s) ==> s.contains(resolved(ctx.redirect@, id.0)),
    ensures
        ok == (resolved(ctx.redirect@, id.0) < graph.nodes@.len()),
        !ok ==> !live_walkable(graph, ctx.redirect@),
        ok ==> {
            &&& sound(graph, ctx.redirect@, final(live)@)
            &&& final(live)@ == old(live)@.insert(resolved(ctx.redirect@, id.0))
            &&& old(live)@.contains(resolved(ctx.redirect@, id.0)) ==> final(stack)@ == old(stack)@
                && final(live)@ == old(live)@
            &&& !old(live)@.contains(resolved(ctx.redirect@, id.0)) ==> final(stack)@ == old(stack)@.push(
                resolved(ctx.redirect@, id.0),
            ) && unvisited(final(live)@).len() < unvisited(old(live)@).len()
        },
{
    let r = ctx.resolve(id);
    if r.0 as usize >= graph.nodes.len() {
        proof {
            assert(live_nodes(graph, ctx.redirect@).contains(r.0));
        }
        return false;
    }
    proof {
        if !live@.contains(r.0) {
            lemma_unvisited(live@, r.0);
        }
    }
    if live.insert(r.0) {
        stack.push(r.0);
    } else {
        assert(live@ =~= old(live)@);
    }
    true
}

/// Pushing a fresh id keeps the walk's invariant.
proof fn lemma_push_keeps(
    g: &DataFlowGraph,
    redirect: Map<u32, u32>,
    marked: Set<u32>,
    stack: Seq<u32>,
    r: u32,
)
    requires
        closed_but(g, redirect, marked, stack),
        r < g.nodes@.len(),
    ensures
        closed_but(g, redirect, marked.insert(r), stack.push(r)),
{
    let s2 = stack.push(r);
    assert(s2[stack.len() as int] == r);
    assert forall|n: u32, id: NodeId|
        marked.insert(r).contains(n) && !s2.contains(n) && #[trigger] uses(g, n as int, id) implies marked.insert(
    r).contains(resolved(redirect, id.0)) by {
        assert(n != r);
        if stack.contains(n) {
            let k = choose|k: int| 0 <= k < stack.len() && stack[k] == n;
            assert(s2[k] == n);
        }
    }
}

/// References of the door are seeds.
proof fn lemma_door_refs_are_seeds(g: &DataFlowGraph, k: int)
    requires
        g.wf(),
        0 <= k < g.door_refs().len(),
    ensures
        live_seed(g, g.door_refs()[k].2),
{
    let a = all_meta_refs(g.meta@, g.nodes@.len() as int);
    if k < a.len() {
        lemma_meta_part(g, g.nodes@.len() as int, k);
    } else {
        lemma_sg_part(g, g.subgraphs@.len() as int, k - a.len());
    }
}

proof fn lemma_meta_part(g: &DataFlowGraph, n: int, k: int)
    requires
        g.wf(),
        0 <= n <= g.nodes@.len(),
        0 <= k < all_meta_refs(g.meta@, n).len(),
    ensures
        live_seed(g, all_meta_refs(g.meta@, n)[k].2),
    decreases n,
{
    let head = all_meta_refs(g.meta@, n - 1);
    if k < head.len() {
        lemma_meta_part(g, n - 1, k);
    } else {
        let ids = meta_refs(g.meta@[n - 1]);
        assert(all_meta_refs(g.meta@, n)[k].2 == ids[k - head.len()]);
        assert(ids.contains(ids[k - head.len()]));
    }
}

proof fn lemma_sg_part(g: &DataFlowGraph, n: int, k: int)
    requires
        g.wf(),
        0 <= n <= g.subgraphs@.len(),
        0 <= k < all_sg_refs(g.subgraphs@, n).len(),
    ensures
        live_seed(g, all_sg_refs(g.subgraphs@, n)[k].2),
    decreases n,
{
    let head = all_sg_refs(g.subgraphs@, n - 1);
    if k < head.len() {
        lemma_sg_part(g, n - 1, k);
    } else {
        let ids = sg_refs(g.subgraphs@[n - 1]);
        assert(all_sg_refs(g.subgraphs@, n)[k].2 == ids[k - head.len()]);
        assert(ids.contains(ids[k - head.len()]));
    }
}

/// Every reference in metadata or anchors is listed by the door.
proof fn lemma_meta_listed(g: &DataFlowGraph, n: int, i: int, id: NodeId) -> (k: int)
    requires
        0 <= i < n <= g.nodes@.len(),
        meta_refs(g.meta@[i]).contains(id),
    ensures
        0 <= k < all_meta_refs(g.meta@, n).len(),
        all_meta_refs(g.meta@, n)[k].2 == id,
    decreases n,
{
    let head = all_meta_refs(g.meta@, n - 1);
    if i < n - 1 {
        let k = lemma_meta_listed(g, n - 1, i, id);
        assert(all_meta_refs(g.meta@, n)[k] == head[k]);
        k
    } else {
        let ids = meta_refs(g.meta@[i]);
        let j = choose|j: int| 0 <= j < ids.len() && ids[j] == id;
        assert(labelled(NodeRefSite::NodeMeta, n - 1, ids)[j].2 == id);
        head.len() + j
    }
}

proof fn lemma_sg_listed(g: &DataFlowGraph, n: int, s: int, id: NodeId) -> (k: int)
    requires
        0 <= s < n <= g.subgraphs@.len(),
        sg_refs(g.subgraphs@[s]).contains(id),
    ensures
        0 <= k < all_sg_refs(g.subgraphs@, n).len(),
        all_sg_refs(g.subgraphs@, n)[k].2 == id,
    decreases n,
{
    let head = all_sg_refs(g.subgraphs@, n - 1);
    if s < n - 1 {
        let k = lemma_sg_listed(g, n - 1, s, id);
        assert(all_sg_refs(g.subgraphs@, n)[k] == head[k]);
        k
    } else {
        let ids = sg_refs(g.subgraphs@[s]);
        let j = choose|j: int| 0 <= j < ids.len() && ids[j] == id;
        assert(labelled(NodeRefSite::SgAnchor, n - 1, ids)[j].2 == id);
        head.len() + j
    }
}

/// The live nodes, found by a walk from the seeds.
pub fn compute_live_nodes(graph: &DataFlowGraph, ctx: &OptimizerContext) -> (live: IdSet)
    requires
        live_walkable(graph, ctx.redirect@),
        acyclic(ctx.redirect@),
    ensures
        live@ == live_nodes(graph, ctx.redirect@),
        live_closed(graph, ctx.redirect@, live@),
        forall|n: u32| #[trigger] live@.contains(n) ==> n < graph.nodes@.len(),
{
    match find_live_nodes(graph, ctx) {
        Some(live) => live,
        None => IdSet::new(),
    }
}

/// The live nodes; nothing where the walk from the seeds leaves the graph.
pub(crate) fn find_live_nodes(graph: &DataFlowGraph, ctx: &OptimizerContext) -> (r: Option<IdSet>)
    requires
        graph.wf(),
        acyclic(ctx.redirect@),
    ensures
        match r {
            Some(live) => {
                &&& live@ == live_nodes(graph, ctx.redirect@)
                &&& live_closed(graph, ctx.redirect@, live@)
                &&& forall|n: u32| #[trigger] live@.contains(n) ==> n < graph.nodes@.len()
                &&& live_walkable(graph, ctx.redirect@)
            },
            None => !live_walkable(graph, ctx.redirect@),
        },
{
    let ghost red = ctx.redirect@;
    let mut live = IdSet::new();
    let mut stack: Vec<u32> = Vec::new();
    let mut refs: Vec<(NodeRefSite, u32, NodeId)> = Vec::new();
    graph.for_each_node_ref(&mut refs);
    assert(refs@ =~= graph.door_refs());
    let mut k: usize = 0;
    while k < refs.len()
        invariant
            graph.wf(),
            acyclic(ctx.redirect@),
            red == ctx.redirect@,
            refs@ == graph.door_refs(),
            k <= refs@.len(),
            sound(graph, red, live@),
            closed_but(graph, red, live@, stack@),
            forall|j: int| 0 <= j < k ==> live@.contains(resolved(red, (#[trigger] refs@[j]).2.0)),
        decreases refs@.len() - k,
    {
        proof {
            lemma_door_refs_are_seeds(graph, k as int);
            if resolved(red, refs@[k as int].2.0) < graph.nodes@.len() {
                lemma_push_keeps(graph, red, live@, stack@, resolved(red, refs@[k as int].2.0));
            }
        }
        if !mark(graph, ctx, refs[k].2, &mut live, &mut stack) {
            return None;
        }
        k = k + 1;
    }
    let mut i: usize = 0;
    while i < graph.nodes.len()
        invariant
            graph.wf(),
            acyclic(ctx.redirect@),
            red == ctx.redirect@,
            refs@ == graph.door_refs(),
            i <= graph.nodes@.len(),
            sound(graph, red, live@),
            closed_but(graph, red, live@, stack@),
            forall|j: int|
                0 <= j < refs@.len() ==> live@.contains(resolved(red, (#[trigger] refs@[j]).2.0)),
            forall|j: int|
                0 <= j < i && side_effect(graph, j) ==> live@.contains(
                    #[trigger] resolved(red, j as u32),
                ),
        decreases graph.nodes@.len() - i,
    {
        if has_side_effect(graph, i) {
            proof {
                assert(live_seed(graph, NodeId(i as u32)));
                if resolved(red, i as u32) < graph.nodes@.len() {
                    lemma_push_keeps(graph, red, live@, stack@, resolved(red, i as u32));
                }
            }
            if !mark(graph, ctx, NodeId(i as u32), &mut live, &mut stack) {
                return None;
            }
        }
        i = i + 1;
    }
    while stack.len() > 0
        invariant
            graph.wf(),
            acyclic(ctx.redirect@),
            red == ctx.redirect@,
            refs@ == graph.door_refs(),
            sound(graph, red, live@),
            closed_but(graph, red, live@, stack@),
            forall|j: int|
                0 <= j < refs@.len() ==> live@.contains(resolved(red, (#[trigger] refs@[j]).2.0)),
            forall|j: int|
                0 <= j < graph.nodes@.len() && side_effect(graph, j) ==> live@.contains(
                    #[trigger] resolved(red, j as u32),
                ),
        decreases unvisited(live@).len(), stack@.len(),
    {
        let ghost full = stack@;
        let ghost marked = live@;
        let n = stack.pop().unwrap();
        assert(full[full.len() - 1] == n);
        assert(marked.contains(n));
        let idx = n as usize;
        let mut ids: Vec<NodeId> = Vec::new();
        let inputs = graph.inputs(idx);
        let mut a: usize = 0;
        while a < inputs.len()
            invariant
                a <= inputs@.len(),
                ids@ == inputs@.take(a as int),
            decreases inputs@.len() - a,
        {
            ids.push(inputs[a]);
            assert(ids@ =~= inputs@.take(a + 1));
            a = a + 1;
        }
        graph.node_meta_refs(idx, &mut ids);
        assert(ids@ =~= graph.inputs_of(idx as int) + meta_refs(graph.meta@[idx as int]));
        let ghost all = ids@;
        proof {
            lemma_uses_is_list(graph, idx as int, all);
            // With `n` off the stack, only what `n` uses may be missing.
            assert forall|m: u32, id: NodeId|
                marked.contains(m) && m != n && !stack@.contains(m) && #[trigger] uses(
                    graph,
                    m as int,
                    id,
                ) implies marked.contains(resolved(red, id.0)) by {
                if full.contains(m) {
                    let q = choose|q: int| 0 <= q < full.len() && full[q] == m;
                    assert(stack@[q] == m);
                }
            }
            assert forall|q: int| 0 <= q < stack@.len() implies marked.contains(
                #[trigger] stack@[q],
            ) by {
                assert(full[q] == stack@[q]);
            }
        }
        let mut b: usize = 0;
        while b < ids.len()
            invariant
                graph.wf(),
                acyclic(ctx.redirect@),
                red == ctx.redirect@,
                refs@ == graph.door_refs(),
                n < graph.nodes@.len(),
                idx == n,
                ids@ == all,
                all == graph.inputs_of(idx as int) + meta_refs(graph.meta@[idx as int]),
                forall|id: NodeId| #[trigger] uses(graph, idx as int, id) <==> all.contains(id),
                marked.contains(n),
                marked.subset_of(live@),
                b <= ids@.len(),
                sound(graph, red, live@),
                forall|m: u32| #[trigger] live@.contains(m) ==> m < graph.nodes@.len(),
                forall|q: int| 0 <= q < stack@.len() ==> live@.contains(#[trigger] stack@[q]),
                forall|m: u32, id: NodeId|
                    live@.contains(m) && m != n && !stack@.contains(m) && #[trigger] uses(
                        graph,
                        m as int,
                        id,
                    ) ==> live@.contains(resolved(red, id.0)),
                forall|q: int| 0 <= q < b ==> live@.contains(resolved(red, (#[trigger] ids@[q]).0)),
                forall|j: int|
                    0 <= j < refs@.len() ==> live@.contains(
                        resolved(red, (#[trigger] refs@[j]).2.0),
                    ),
                forall|j: int|
                    0 <= j < graph.nodes@.len() && side_effect(graph, j) ==> live@.contains(
                        #[trigger] resolved(red, j as u32),
                    ),
                live@ == marked && stack@.len() < full.len() || unvisited(live@).len() < unvisited(
                    marked,
                ).len(),
            decreases ids@.len() - b,
        {
            let ghost prev = live@;
            let ghost prev_stack = stack@;
            proof {
                assert(all.contains(ids@[b as int]));
                assert(uses(graph, idx as int, ids@[b as int]));
                assert forall|s: Set<u32>| #[trigger] live_closed(graph, red, s) implies s.contains(
                resolved(red, ids@[b as int].0)) by {
                    assert(s.contains(n));
                }
            }
            if !mark(graph, ctx, ids[b], &mut live, &mut stack) {
                return None;
            }
            proof {
                let r = resolved(red, ids@[b as int].0);
                assert forall|m: u32, id: NodeId|
                    live@.contains(m) && m != n && !stack@.contains(m) && #[trigger] uses(
                        graph,
                        m as int,
                        id,
                    ) implies live@.contains(resolved(red, id.0)) by {
                    if !prev.contains(r) {
                        assert(stack@[prev_stack.len() as int] == r);
                        if prev_stack.contains(m) {
                            let q = choose|q: int| 0 <= q < prev_stack.len() && prev_stack[q] == m;
                            assert(stack@[q] == m);
                        }
                    }
                }
            }
            b = b + 1;
        }
        proof {
            assert forall|m: u32, id: NodeId|
                live@.contains(m) && !stack@.contains(m) && #[trigger] uses(
                    graph,
                    m as int,
                    id,
                ) implies live@.contains(resolved(red, id.0)) by {
                if m == n {
                    let q = choose|q: int| 0 <= q < all.len() && all[q] == id;
                    assert(ids@[q] == id);
                }
            }
        }
    }
    proof {
        assert forall|id: NodeId| #[trigger] live_seed(graph, id) implies live@.contains(
            resolved(red, id.0),
        ) by {
            let a = all_meta_refs(graph.meta@, graph.nodes@.len() as int);
            if id.0 < graph.nodes@.len() && side_effect(graph, id.0 as int) {
                assert(resolved(red, (id.0 as int) as u32) == resolved(red, id.0));
            } else if exists|i: int|
                0 <= i < graph.meta@.len() && meta_refs(#[trigger] graph.meta@[i]).contains(id) {
                let i = choose|i: int|
                    0 <= i < graph.meta@.len() && meta_refs(#[trigger] graph.meta@[i]).contains(id);
                let q = lemma_meta_listed(graph, graph.nodes@.len() as int, i, id);
                assert(refs@[q].2 == id);
            } else {
                let s = choose|s: int|
                    0 <= s < graph.subgraphs@.len() && sg_refs(
                        #[trigger] graph.subgraphs@[s],
                    ).contains(id);
                let q = lemma_sg_listed(graph, graph.subgraphs@.len() as int, s, id);
                assert(refs@[a.len() + q].2 == id);
            }
        }
        assert(live_closed(graph, red, live@));
        assert(live@ =~= live_nodes(graph, red));
    }
    Some(live)
}

proof fn lemma_uses_is_list(g: &DataFlowGraph, n: int, all: Seq<NodeId>)
    requires
        all == g.inputs_of(n) + meta_refs(g.meta@[n]),
    ensures
        forall|id: NodeId| #[trigger] uses(g, n, id) <==> all.contains(id),
{
    let a = g.inputs_of(n);
    let b = meta_refs(g.meta@[n]);
    assert forall|id: NodeId| #[trigger] uses(g, n, id) <==> all.contains(id) by {
        if a.contains(id) {
            let k = choose|k: int| 0 <= k < a.len() && a[k] == id;
            assert(all[k] == id);
        }
        if b.contains(id) {
            let k = choose|k: int| 0 <= k < b.len() && b[k] == id;
            assert(all[a.len() + k] == id);
        }
        if all.contains(id) {
            let k = choose|k: int| 0 <= k < all.len() && all[k] == id;
            if k < a.len() {
                assert(a[k] == id);
            } else {
                assert(b[k - a.len()] == id);
            }
        }
    }
}

/// What a node uses is a node.
pub proof fn lemma_used_ids_below(g: &DataFlowGraph, n: int, id: NodeId)
    requires
        walkable(g),
        0 <= n < g.nodes@.len(),
        uses(g, n, id),
    ensures
        id.0 < g.nodes@.len(),
{
    if g.inputs_of(n).contains(id) {
        let k = choose|k: int| 0 <= k < g.inputs_of(n).len() && g.inputs_of(n)[k] == id;
        assert(g.inputs_of(n)[k].0 < g.nodes@.len());
    } else {
        let ids = meta_refs(g.meta@[n]);
        let k = choose|k: int| 0 <= k < ids.len() && ids[k] == id;
        assert(all_below(ids, g.nodes@.len() as int));
    }
}

// ---- reachable functions ---------------------------------------------------

/// Node and function liveness.
#[derive(Debug)]
pub struct Liveness {
    /// Live nodes (redirects followed).
    pub nodes: IdSet,
    /// Reachable functions.
    pub funcs: IdSet,
    /// Owning function of each node (`NO_OWNER` = none).
    pub node_owner: Vec<u32>,
}

/// The walk over what is called stays in the graph: the entry, the targets of
/// the dispatch table, and what the retained nodes of reachable functions
/// refer to, are subgraphs.
pub open spec fn sg_refs_valid(g: &DataFlowGraph, dead: Set<u32>, redirect: Map<u32, u32>) -> bool {
    g.entry_subgraph is Some ==> {
        &&& (g.entry_subgraph->0).0 < g.subgraphs@.len()
        &&& forall|k: int|
            0 <= k < g.vtable_fallback_dispatch@.len() ==> (
            #[trigger] g.vtable_fallback_dispatch@[k]).target.0 < g.subgraphs@.len()
        &&& forall|i: int, t: SubGraphId|
            0 <= i < g.nodes@.len() && stays(dead, redirect, i) && reachable_funcs(g, dead, redirect).contains(
                counted_owner(g, i),
            ) && #[trigger] meta_sgs(g.meta@[i]).contains(t) ==> t.0 < g.subgraphs@.len()
    }
}

/// Whether the reference is to a subgraph of a function of the set.
spec fn leads_into(g: &DataFlowGraph, funcs: Set<u32>, t: SubGraphId) -> bool {
    t.0 < g.subgraphs@.len() && funcs.contains(g.subgraphs@[t.0 as int].function_id)
}

/// The function that runs first.
pub open spec fn entry_function(g: &DataFlowGraph) -> u32 {
    g.subgraphs@[(g.entry_subgraph->0).0 as int].function_id
}

/// The function that a retained node counts to: its owner, or the entry
/// function where it has none.
pub open spec fn counted_owner(g: &DataFlowGraph, i: int) -> u32 {
    if g.owner_of(i) == NO_OWNER {
        entry_function(g)
    } else {
        g.owner_of(i)
    }
}

/// A set of functions that holds the entry function and the dispatch targets,
/// and with a function every function that its retained nodes refer to.
pub open spec fn funcs_closed(
    g: &DataFlowGraph,
    dead: Set<u32>,
    redirect: Map<u32, u32>,
    s: Set<u32>,
) -> bool {
    &&& s.contains(entry_function(g))
    &&& forall|k: int|
        0 <= k < g.vtable_fallback_dispatch@.len() ==> s.contains(
            g.subgraphs@[(
            #[trigger] g.vtable_fallback_dispatch@[k]).target.0 as int].function_id,
        )
    &&& forall|i: int, t: SubGraphId|
        0 <= i < g.nodes@.len() && stays(dead, redirect, i) && s.contains(counted_owner(g, i))
            && #[trigger] meta_sgs(g.meta@[i]).contains(t) ==> s.contains(
            g.subgraphs@[t.0 as int].function_id,
        )
}

/// The reachable functions: those in every such set; none without an entry.
pub open spec fn reachable_funcs(
    g: &DataFlowGraph,
    dead: Set<u32>,
    redirect: Map<u32, u32>,
) -> Set<u32> {
    if g.entry_subgraph is None {
        Set::empty()
    } else {
        Set::new(
            |f: u32| forall|s: Set<u32>| funcs_closed(g, dead, redirect, s) ==> s.contains(f),
        )
    }
}

/// Retained nodes grouped by the function they count to: `at` gives the group
/// of a function.
spec fn grouped(
    g: &DataFlowGraph,
    dead: Set<u32>,
    redirect: Map<u32, u32>,
    at: Map<u32, u32>,
    groups: Seq<Vec<usize>>,
    n: int,
) -> bool {
    &&& forall|f: u32| #[trigger] at.contains_key(f) ==> at[f] < groups.len()
    &&& forall|f: u32, k: int|
        at.contains_key(f) && 0 <= k < groups[at[f] as int]@.len() ==> {
            let i = #[trigger] groups[at[f] as int]@[k];
            i < n && stays(dead, redirect, i as int) && counted_owner(g, i as int) == f
        }
    &&& forall|i: int|
        0 <= i < n && stays(dead, redirect, i) ==> at.contains_key(#[trigger] counted_owner(g, i))
            && groups[at[counted_owner(g, i)] as int]@.contains(i as usize)
    &&& forall|f: u32, h: u32|
        at.contains_key(f) && at.contains_key(h) && f != h ==> #[trigger] at[f] != #[trigger] at[h]
}

fn group_retained(graph: &DataFlowGraph, ctx: &OptimizerContext, owners: &Vec<u32>, entry: u32) -> (r: (
    IdMap,
    Vec<Vec<usize>>,
))
    requires
        graph.nodes@.len() <= u32::MAX,
        owners@.len() == graph.nodes@.len(),
        forall|i: int| 0 <= i < graph.nodes@.len() ==> #[trigger] owners@[i] == graph.owner_of(i),
        entry == entry_function(graph),
    ensures
        grouped(
            graph,
            ctx.dead@,
            ctx.redirect@,
            r.0@,
            r.1@,
            graph.nodes@.len() as int,
        ),
{
    let mut at = IdMap::new();
    let mut groups: Vec<Vec<usize>> = Vec::new();
    let mut i: usize = 0;
    while i < graph.nodes.len()
        invariant
            graph.nodes@.len() <= u32::MAX,
            owners@.len() == graph.nodes@.len(),
            forall|i: int|
                0 <= i < graph.nodes@.len() ==> #[trigger] owners@[i] == graph.owner_of(i),
            entry == entry_function(graph),
            i <= graph.nodes@.len(),
            groups@.len() <= i,
            grouped(graph, ctx.dead@, ctx.redirect@, at@, groups@, i as int),
        decreases graph.nodes@.len() - i,
    {
        assert(owners@[i as int] == graph.owner_of(i as int));
        if ctx.is_live(NodeId(i as u32)) {
            let f = if owners[i] == NO_OWNER {
                entry
            } else {
                owners[i]
            };
            assert(f == counted_owner(graph, i as int));
            let ghost at0 = at@;
            let ghost groups0 = groups@;
            let slot: usize = match at.get(f) {
                Some(k) => k as usize,
                None => {
                    let k = groups.len();
                    at.insert(f, k as u32);
                    groups.push(Vec::new());
                    k
                },
            };
            let ghost groups1 = groups@;
            groups[slot].push(i);
            proof {
                let dead = ctx.dead@;
                let red = ctx.redirect@;
                assert forall|h: u32, k: int|
                    at@.contains_key(h) && 0 <= k < groups@[at@[h] as int]@.len() implies {
                    let j = #[trigger] groups@[at@[h] as int]@[k];
                    j < i + 1 && stays(dead, red, j as int) && counted_owner(graph, j as int) == h
                } by {
                    if h == f {
                        if k < groups1[slot as int]@.len() {
                            assert(at0.contains_key(h));
                            assert(groups0[at0[h] as int]@[k] == groups@[at@[h] as int]@[k]);
                        }
                    } else {
                        assert(at0.contains_key(h));
                        assert(at@[h] != slot);
                        assert(groups0[at0[h] as int]@[k] == groups@[at@[h] as int]@[k]);
                    }
                }
                assert forall|j: int| 0 <= j < i + 1 && stays(dead, red, j) implies at@.contains_key(
                    #[trigger] counted_owner(graph, j),
                ) && groups@[at@[counted_owner(graph, j)] as int]@.contains(j as usize) by {
                    let h = counted_owner(graph, j);
                    if j < i {
                        let old_group = groups0[at0[h] as int]@;
                        let k = choose|k: int|
                            0 <= k < old_group.len() && old_group[k] == j as usize;
                        assert(groups@[at@[h] as int]@[k] == j as usize);
                    } else {
                        let g2 = groups@[slot as int]@;
                        assert(g2[g2.len() - 1] == i);
                    }
                }
            }
        }
        i = i + 1;
    }
    (at, groups)
}

/// Every function marked so far is reachable.
spec fn funcs_sound(
    g: &DataFlowGraph,
    dead: Set<u32>,
    redirect: Map<u32, u32>,
    marked: Set<u32>,
) -> bool {
    forall|s: Set<u32>, f: u32| #[trigger]
        funcs_closed(g, dead, redirect, s) && #[trigger] marked.contains(f) ==> s.contains(f)
}

/// What marked functions refer to is marked, but for those on the stack.
spec fn funcs_closed_but(
    g: &DataFlowGraph,
    dead: Set<u32>,
    redirect: Map<u32, u32>,
    marked: Set<u32>,
    stack: Seq<u32>,
) -> bool {
    &&& forall|k: int| 0 <= k < stack.len() ==> marked.contains(#[trigger] stack[k])
    &&& forall|i: int, t: SubGraphId|
        0 <= i < g.nodes@.len() && stays(dead, redirect, i) && marked.contains(counted_owner(g, i))
            && !stack.contains(counted_owner(g, i)) && #[trigger] meta_sgs(g.meta@[i]).contains(t)
            ==> leads_into(g, marked, t)
}

fn mark_func(f: u32, funcs: &mut IdSet, stack: &mut Vec<u32>)
    ensures
        final(funcs)@ == old(funcs)@.insert(f),
        old(funcs)@.contains(f) ==> final(stack)@ == old(stack)@ && final(funcs)@ == old(funcs)@,
        !old(funcs)@.contains(f) ==> final(stack)@ == old(stack)@.push(f) && unvisited(
            final(funcs)@,
        ).len() < unvisited(old(funcs)@).len(),
        forall|x: u32| #[trigger]
            final(stack)@.contains(x) <==> old(stack)@.contains(x) || (x == f && !old(
                funcs,
            )@.contains(f)),
{
    proof {
        if !funcs@.contains(f) {
            lemma_unvisited(funcs@, f);
        }
    }
    if funcs.insert(f) {
        stack.push(f);
        assert forall|x: u32| #[trigger] stack@.contains(x) <==> old(stack)@.contains(x) || x == f by {
            assert(stack@[old(stack)@.len() as int] == f);
            if old(stack)@.contains(x) {
                let k = choose|k: int| 0 <= k < old(stack)@.len() && old(stack)@[k] == x;
                assert(stack@[k] == x);
            }
            if stack@.contains(x) {
                let k = choose|k: int| 0 <= k < stack@.len() && stack@[k] == x;
                if k < old(stack)@.len() {
                    assert(old(stack)@[k] == x);
                }
            }
        }
    } else {
        assert(funcs@ =~= old(funcs)@);
    }
}

/// The functions that are reachable from the entry; nothing where the walk over
/// what is called leaves the graph.
#[verifier::rlimit(40)]
pub(crate) fn find_reachable(graph: &DataFlowGraph, ctx: &OptimizerContext, owners: &Vec<u32>) -> (r: Option<IdSet>)
    requires
        graph.meta@.len() == graph.nodes@.len() <= u32::MAX,
        owners@.len() == graph.nodes@.len(),
        forall|i: int| 0 <= i < graph.nodes@.len() ==> #[trigger] owners@[i] == graph.owner_of(i),
    ensures
        match r {
            Some(funcs) => {
                &&& sg_refs_valid(graph, ctx.dead@, ctx.redirect@)
                &&& funcs@ == reachable_funcs(graph, ctx.dead@, ctx.redirect@)
                &&& graph.entry_subgraph is Some ==> funcs_closed(graph, ctx.dead@, ctx.redirect@, funcs@)
            },
            None => !sg_refs_valid(graph, ctx.dead@, ctx.redirect@),
        },
{
    let mut funcs = IdSet::new();
    let entry_sg = match graph.entry_subgraph {
        None => {
            return Some(funcs);
        },
        Some(e) => e,
    };
    let ghost dead = ctx.dead@;
    let ghost red = ctx.redirect@;
    if entry_sg.0 as usize >= graph.subgraphs.len() {
        return None;
    }
    let entry = graph.subgraphs[entry_sg.0 as usize].function_id;
    let mut stack: Vec<u32> = Vec::new();
    mark_func(entry, &mut funcs, &mut stack);
    assert(stack@[0] == entry);
    let mut v: usize = 0;
    while v < graph.vtable_fallback_dispatch.len()
        invariant
            dead == ctx.dead@,
            red == ctx.redirect@,
            graph.entry_subgraph == Some(entry_sg),
            entry_sg.0 < graph.subgraphs@.len(),
            entry == entry_function(graph),
            v <= graph.vtable_fallback_dispatch@.len(),
            funcs@.contains(entry),
            forall|k: int|
                0 <= k < v ==> leads_into(graph, funcs@, (#[trigger] graph.vtable_fallback_dispatch@[k]).target),
            funcs_sound(graph, dead, red, funcs@),
            forall|x: u32| #[trigger] stack@.contains(x) <==> funcs@.contains(x),
        decreases graph.vtable_fallback_dispatch@.len() - v,
    {
        let target = graph.vtable_fallback_dispatch[v].target;
        if target.0 as usize >= graph.subgraphs.len() {
            assert(!(graph.vtable_fallback_dispatch@[v as int].target.0 < graph.subgraphs@.len()));
            return None;
        }
        let f = graph.subgraphs[target.0 as usize].function_id;
        let ghost prev = funcs@;
        mark_func(f, &mut funcs, &mut stack);
        proof {
            assert forall|s: Set<u32>, x: u32| #[trigger]
                funcs_closed(graph, dead, red, s) && #[trigger] funcs@.contains(x) implies s.contains(
            x) by {
                if !prev.contains(x) {
                    assert(graph.vtable_fallback_dispatch@[v as int].target == target);
                }
            }
        }
        v = v + 1;
    }
    let (at, groups) = group_retained(graph, ctx, owners, entry);
    assert forall|k: int| 0 <= k < stack@.len() implies funcs@.contains(#[trigger] stack@[k]) by {
        assert(stack@.contains(stack@[k]));
    }
    while stack.len() > 0
        invariant
            graph.meta@.len() == graph.nodes@.len() <= u32::MAX,
            dead == ctx.dead@,
            red == ctx.redirect@,
            graph.entry_subgraph == Some(entry_sg),
            entry_sg.0 < graph.subgraphs@.len(),
            entry == entry_function(graph),
            grouped(graph, dead, red, at@, groups@, graph.nodes@.len() as int),
            funcs@.contains(entry),
            forall|k: int|
                0 <= k < graph.vtable_fallback_dispatch@.len() ==> leads_into(graph, funcs@, (#[trigger] graph.vtable_fallback_dispatch@[k]).target),
            funcs_sound(graph, dead, red, funcs@),
            funcs_closed_but(graph, dead, red, funcs@, stack@),
        decreases unvisited(funcs@).len(), stack@.len(),
    {
        let ghost full = stack@;
        let ghost marked = funcs@;
        let f = stack.pop().unwrap();
        assert(full[full.len() - 1] == f);
        proof {
            assert forall|k: int| 0 <= k < stack@.len() implies marked.contains(
                #[trigger] stack@[k],
            ) by {
                assert(full[k] == stack@[k]);
            }
            assert forall|x: u32| x != f && full.contains(x) implies #[trigger] stack@.contains(x) by {
                let k = choose|k: int| 0 <= k < full.len() && full[k] == x;
                assert(stack@[k] == x);
            }
        }
        let slot_opt = at.get(f);
        if let Some(slot) = slot_opt {
            let group = &groups[slot as usize];
            let mut a: usize = 0;
            while a < group.len()
                invariant
                    graph.meta@.len() == graph.nodes@.len() <= u32::MAX,
                            dead == ctx.dead@,
                    red == ctx.redirect@,
                    graph.entry_subgraph is Some,
                    grouped(graph, dead, red, at@, groups@, graph.nodes@.len() as int),
                    at@.contains_key(f),
                    at@[f] == slot,
                    slot < groups@.len(),
                    *group == groups@[slot as int],
                    a <= group@.len(),
                    marked.contains(f),
                    marked.subset_of(funcs@),
                    funcs_sound(graph, dead, red, funcs@),
                    forall|k: int| 0 <= k < stack@.len() ==> funcs@.contains(#[trigger] stack@[k]),
                    forall|i: int, t: SubGraphId|
                        0 <= i < graph.nodes@.len() && stays(dead, red, i) && funcs@.contains(
                            counted_owner(graph, i),
                        ) && counted_owner(graph, i) != f && !stack@.contains(
                            counted_owner(graph, i),
                        ) && #[trigger] meta_sgs(graph.meta@[i]).contains(t) ==> leads_into(graph, funcs@, t),
                    forall|k: int, t: SubGraphId|
                        0 <= k < a && #[trigger] meta_sgs(
                            graph.meta@[group@[k] as int],
                        ).contains(t) ==> leads_into(graph, funcs@, t),
                    funcs@ == marked && stack@.len() < full.len() || unvisited(funcs@).len()
                        < unvisited(marked).len(),
                decreases group@.len() - a,
            {
                let idx = group[a];
                assert(groups@[at@[f] as int]@[a as int] == idx);
                let targets = meta_subgraphs(&graph.meta[idx]);
                let mut b: usize = 0;
                while b < targets.len()
                    invariant
                        graph.meta@.len() == graph.nodes@.len() <= u32::MAX,
                                    dead == ctx.dead@,
                        red == ctx.redirect@,
                        graph.entry_subgraph is Some,
                        idx < graph.nodes@.len(),
                        stays(dead, red, idx as int),
                        counted_owner(graph, idx as int) == f,
                        targets@ == meta_sgs(graph.meta@[idx as int]),
                        b <= targets@.len(),
                        a < group@.len(),
                        marked.contains(f),
                        marked.subset_of(funcs@),
                        funcs_sound(graph, dead, red, funcs@),
                        forall|k: int|
                            0 <= k < stack@.len() ==> funcs@.contains(#[trigger] stack@[k]),
                        forall|i: int, t: SubGraphId|
                            0 <= i < graph.nodes@.len() && stays(dead, red, i) && funcs@.contains(
                                counted_owner(graph, i),
                            ) && counted_owner(graph, i) != f && !stack@.contains(
                                counted_owner(graph, i),
                            ) && #[trigger] meta_sgs(graph.meta@[i]).contains(t)
                                ==> leads_into(graph, funcs@, t),
                        forall|k: int, t: SubGraphId|
                            0 <= k < a && #[trigger] meta_sgs(
                                graph.meta@[group@[k] as int],
                            ).contains(t) ==> leads_into(graph, funcs@, t),
                        forall|k: int|
                            0 <= k < b ==> leads_into(graph, funcs@, #[trigger] targets@[k]),
                        funcs@ == marked && stack@.len() < full.len() || unvisited(funcs@).len()
                            < unvisited(marked).len(),
                    decreases targets@.len() - b,
                {
                    let t = targets[b];
                    assert(meta_sgs(graph.meta@[idx as int]).contains(targets@[b as int]));
                    if t.0 as usize >= graph.subgraphs.len() {
                        proof {
                            assert(reachable_funcs(graph, dead, red).contains(f)) by {
                                assert(funcs@.contains(f));
                            }
                            assert(reachable_funcs(graph, dead, red).contains(counted_owner(graph, idx as int)));
                        }
                        return None;
                    }
                    let h = graph.subgraphs[t.0 as usize].function_id;
                    let ghost prev = funcs@;
                    let ghost prev_stack = stack@;
                    mark_func(h, &mut funcs, &mut stack);
                    proof {
                        assert forall|s: Set<u32>, x: u32| #[trigger]
                            funcs_closed(graph, dead, red, s) && #[trigger] funcs@.contains(
                                x,
                            ) implies s.contains(x) by {
                            if !prev.contains(x) {
                                assert(s.contains(f));
                                assert(meta_sgs(graph.meta@[idx as int]).contains(t));
                            }
                        }
                        assert forall|i: int, u: SubGraphId|
                            0 <= i < graph.nodes@.len() && stays(dead, red, i) && funcs@.contains(
                                counted_owner(graph, i),
                            ) && counted_owner(graph, i) != f && !stack@.contains(
                                counted_owner(graph, i),
                            ) && #[trigger] meta_sgs(graph.meta@[i]).contains(u) implies leads_into(graph, funcs@, u) by {
                            assert(!prev_stack.contains(counted_owner(graph, i)));
                        }
                    }
                    b = b + 1;
                }
                assert forall|k: int, t: SubGraphId|
                    0 <= k < a + 1 && #[trigger] meta_sgs(graph.meta@[group@[k] as int]).contains(
                        t,
                    ) implies leads_into(graph, funcs@, t) by {
                    if k == a {
                        let q = choose|q: int| 0 <= q < targets@.len() && targets@[q] == t;
                        assert(leads_into(graph, funcs@, targets@[q]));
                    }
                }
                a = a + 1;
            }
        }
        proof {
            assert forall|i: int, t: SubGraphId|
                0 <= i < graph.nodes@.len() && stays(dead, red, i) && funcs@.contains(
                    counted_owner(graph, i),
                ) && !stack@.contains(counted_owner(graph, i)) && #[trigger] meta_sgs(
                    graph.meta@[i],
                ).contains(t) implies leads_into(graph, funcs@, t) by {
                if counted_owner(graph, i) == f {
                    assert(at@.contains_key(f));
                    let grp = groups@[at@[f] as int]@;
                    let k = choose|k: int| 0 <= k < grp.len() && grp[k] == i as usize;
                    assert(meta_sgs(graph.meta@[grp[k] as int]).contains(t));
                }
            }
        }
    }
    proof {
        assert(funcs_closed(graph, dead, red, funcs@)) by {
            assert forall|k: int| 0 <= k < graph.vtable_fallback_dispatch@.len() implies funcs@.contains(
                graph.subgraphs@[(#[trigger] graph.vtable_fallback_dispatch@[k]).target.0 as int].function_id,
            ) by {
                assert(leads_into(graph, funcs@, graph.vtable_fallback_dispatch@[k].target));
            }
            assert forall|i: int, t: SubGraphId|
                0 <= i < graph.nodes@.len() && stays(dead, red, i) && funcs@.contains(counted_owner(graph, i))
                    && #[trigger] meta_sgs(graph.meta@[i]).contains(t) implies funcs@.contains(
                graph.subgraphs@[t.0 as int].function_id,
            ) by {
                assert(leads_into(graph, funcs@, t));
            }
        }
        assert(funcs@ =~= reachable_funcs(graph, dead, red));
        assert forall|k: int| 0 <= k < graph.vtable_fallback_dispatch@.len() implies (
        #[trigger] graph.vtable_fallback_dispatch@[k]).target.0 < graph.subgraphs@.len() by {
            assert(leads_into(graph, funcs@, graph.vtable_fallback_dispatch@[k].target));
        }
        assert forall|i: int, t: SubGraphId|
            0 <= i < graph.nodes@.len() && stays(dead, red, i) && reachable_funcs(graph, dead, red).contains(
                counted_owner(graph, i),
            ) && #[trigger] meta_sgs(graph.meta@[i]).contains(t) implies t.0 < graph.subgraphs@.len() by {
            assert(leads_into(graph, funcs@, t));
        }
    }
    Some(funcs)
}

/// Node liveness and function reachability.
pub fn compute_liveness(graph: &DataFlowGraph, ctx: &OptimizerContext) -> (r: Liveness)
    requires
        live_walkable(graph, ctx.redirect@),
        acyclic(ctx.redirect@),
        sg_refs_valid(graph, ctx.dead@, ctx.redirect@),
    ensures
        r.nodes@ == live_nodes(graph, ctx.redirect@),
        r.funcs@ == reachable_funcs(graph, ctx.dead@, ctx.redirect@),
        r.node_owner@.len() == graph.nodes@.len(),
        forall|i: int|
            0 <= i < graph.nodes@.len() ==> #[trigger] r.node_owner@[i] == graph.owner_of(i),
{
    let nodes = compute_live_nodes(graph, ctx);
    let node_owner = graph.node_owners();
    let funcs = match find_reachable(graph, ctx, &node_owner) {
        Some(funcs) => funcs,
        None => IdSet::new(),
    };
    Liveness { nodes, funcs, node_owner }
}

// ---- laws ------------------------------------------------------------------

/// Whatever a live node uses is live.
pub proof fn law_uses_of_live_nodes_are_live(
    g: &DataFlowGraph,
    redirect: Map<u32, u32>,
    n: u32,
    id: NodeId,
)
    requires
        n < g.nodes@.len(),
        live_nodes(g, redirect).contains(n),
        uses(g, n as int, id),
    ensures
        live_nodes(g, redirect).contains(resolved(redirect, id.0)),
{
    assert forall|s: Set<u32>| live_closed(g, redirect, s) implies s.contains(
        resolved(redirect, id.0),
    ) by {
        assert(s.contains(n));
    }
}

/// Every anchor of a subgraph, every reference in metadata and every node
/// with a side effect is live.
pub proof fn law_seeds_are_live(g: &DataFlowGraph, redirect: Map<u32, u32>, id: NodeId)
    requires
        live_seed(g, id),
    ensures
        live_nodes(g, redirect).contains(resolved(redirect, id.0)),
{
}

/// A retained call site and its callee never disagree: if the caller's
/// function is reachable, so is the callee's.
pub proof fn law_callees_of_reachable_functions_are_reachable(
    g: &DataFlowGraph,
    dead: Set<u32>,
    redirect: Map<u32, u32>,
    i: int,
    t: SubGraphId,
)
    requires
        g.entry_subgraph is Some,
        0 <= i < g.nodes@.len(),
        stays(dead, redirect, i),
        reachable_funcs(g, dead, redirect).contains(counted_owner(g, i)),
        meta_sgs(g.meta@[i]).contains(t),
    ensures
        reachable_funcs(g, dead, redirect).contains(g.subgraphs@[t.0 as int].function_id),
{
    let f = g.subgraphs@[t.0 as int].function_id;
    assert forall|s: Set<u32>| funcs_closed(g, dead, redirect, s) implies s.contains(f) by {
        assert(s.contains(counted_owner(g, i)));
    }
}

/// A node that writes back, sets a field, stores a module variable, calls out
/// or is a tail call is live.
pub proof fn law_acting_nodes_are_live(g: &DataFlowGraph, redirect: Map<u32, u32>, i: u32)
    requires
        i < g.nodes@.len(),
        g.meta@[i as int].writeback_target is Some || g.meta@[i as int].field_set_name is Some
            || g.meta@[i as int].global_store_slot is Some || g.meta@[i as int].ffi_call_name is Some
            || g.meta@[i as int].tail_call,
    ensures
        live_nodes(g, redirect).contains(resolved(redirect, i)),
{
    assert(live_seed(g, NodeId(i)));
}

/// What a subgraph returns, starts at, tests, advances, captures or hands to
/// its defer blocks is live, and so is what a node awaits, writes back to or
/// hands to the branches of its gate.
pub proof fn law_structure_is_live(g: &DataFlowGraph, redirect: Map<u32, u32>, k: int, x: NodeId)
    requires
        ({
            ||| 0 <= k < g.subgraphs@.len() && (g.subgraphs@[k].return_node == x || g.subgraphs@[k].entry_node == x
                || g.subgraphs@[k].cond_node == Some(x) || g.subgraphs@[k].iter_next_node == Some(x)
                || g.subgraphs@[k].upvalue_outer_nodes@.contains(x))
            ||| 0 <= k < g.subgraphs@.len() && exists|d: int|
                0 <= d < g.subgraphs@[k].defer_table@.len() && ((
                #[trigger] g.subgraphs@[k].defer_table@[d]).trigger_node == x
                    || g.subgraphs@[k].defer_table@[d].captured_inputs@.contains(x))
            ||| 0 <= k < g.meta@.len() && (g.meta@[k].await_event_source == Some(x) || g.meta@[k].writeback_target
                == Some(x))
            ||| 0 <= k < g.meta@.len() && g.meta@[k].gate_branches is Some && (
            g.meta@[k].gate_branches->0.condition_input == x || exists|b: int|
                0 <= b < g.meta@[k].gate_branches->0.branches@.len() && (
                #[trigger] g.meta@[k].gate_branches->0.branches@[b]).params@.contains(x))
        }),
    ensures
        live_nodes(g, redirect).contains(resolved(redirect, x.0)),
{
    if 0 <= k < g.subgraphs@.len() {
        law_anchors_are_listed(g.subgraphs@[k], x);
    }
    if 0 <= k < g.meta@.len() {
        law_metadata_is_listed(g.meta@[k], x);
    }
    assert(live_seed(g, x));
}

/// The inputs of a live node are live.
pub proof fn law_inputs_of_live_nodes_are_live(g: &DataFlowGraph, redirect: Map<u32, u32>, n: u32, j: int)
    requires
        n < g.nodes@.len(),
        live_nodes(g, redirect).contains(n),
        0 <= j < g.inputs_of(n as int).len(),
    ensures
        live_nodes(g, redirect).contains(resolved(redirect, g.inputs_of(n as int)[j].0)),
{
    let id = g.inputs_of(n as int)[j];
    assert(g.inputs_of(n as int).contains(id));
    law_uses_of_live_nodes_are_live(g, redirect, n, id);
}

/// Nothing else is live: a set that holds what acts and what the structure
/// needs, and with a node its inputs and references, holds all that is live.
pub proof fn law_nothing_else_is_live(g: &DataFlowGraph, redirect: Map<u32, u32>, s: Set<u32>, x: u32)
    requires
        g.wf(),
        live_nodes(g, redirect).contains(x),
        forall|i: int, id: NodeId|
            0 <= i < g.meta@.len() && #[trigger] meta_refs(g.meta@[i]).contains(id) ==> s.contains(
                resolved(redirect, id.0),
            ),
        forall|i: int, id: NodeId|
            0 <= i < g.subgraphs@.len() && #[trigger] sg_refs(g.subgraphs@[i]).contains(id) ==> s.contains(
                resolved(redirect, id.0),
            ),
        forall|i: u32|
            i < g.nodes@.len() && (g.meta@[i as int].writeback_target is Some || g.meta@[i as int].field_set_name is Some
                || g.meta@[i as int].global_store_slot is Some || g.meta@[i as int].ffi_call_name is Some
                || g.meta@[i as int].tail_call || is_control_flow_id(g.nodes@[i as int].compute_fn.0))
                ==> #[trigger] s.contains(resolved(redirect, i)),
        forall|n: u32, id: NodeId|
            n < g.nodes@.len() && s.contains(n) && #[trigger] g.inputs_of(n as int).contains(id) ==> s.contains(
                resolved(redirect, id.0),
            ),
    ensures
        s.contains(x),
{
    assert(live_closed(g, redirect, s)) by {
        assert forall|id: NodeId| #[trigger] live_seed(g, id) implies s.contains(resolved(redirect, id.0)) by {
            if exists|i: int| 0 <= i < g.meta@.len() && meta_refs(#[trigger] g.meta@[i]).contains(id) {
                let i = choose|i: int| 0 <= i < g.meta@.len() && meta_refs(#[trigger] g.meta@[i]).contains(id);
                assert(meta_refs(g.meta@[i]).contains(id));
            } else if exists|i: int| 0 <= i < g.subgraphs@.len() && sg_refs(#[trigger] g.subgraphs@[i]).contains(id) {
                let i = choose|i: int| 0 <= i < g.subgraphs@.len() && sg_refs(#[trigger] g.subgraphs@[i]).contains(id);
                assert(sg_refs(g.subgraphs@[i]).contains(id));
            } else {
                assert(side_effect(g, id.0 as int));
            }
        }
        assert forall|n: u32, id: NodeId|
            n < g.nodes@.len() && s.contains(n) && #[trigger] uses(g, n as int, id) implies s.contains(
            resolved(redirect, id.0),
        ) by {
            if !g.inputs_of(n as int).contains(id) {
                if n < g.meta@.len() {
                    assert(meta_refs(g.meta@[n as int]).contains(id));
                }
            }
        }
    }
}

} // verus!
