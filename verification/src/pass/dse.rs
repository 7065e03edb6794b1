//! Dead store elimination: stores whose effect nobody can observe.


use vstd::prelude::*;

use crate::fx::IdSet;
use crate::ir::compute_fns::{
    is_control_flow_compute_fn, is_control_flow_id, CF_ARRAY_STORE, CF_GLOBAL_LOAD,
    CF_GLOBAL_STORE, CF_RECORD_FIELD_SET, CF_WRITEBACK,
};
use crate::ir::graph::DataFlowGraph;
use crate::ir::layout::stays;
use crate::ir::redirect::{acyclic, resolved};
use crate::ir::refs::{law_gates_are_listed, decl_refs, defer_refs, gate_refs, opt_ref, select_refs};
use crate::ir::types::{NodeId, SubGraph};
use crate::pass::context::OptimizerContext;
use crate::pass::liveness::{compute_live_nodes, live_nodes, live_walkable};

verus! {

/// Whether the node is a store: a writeback, a field assignment, an array
/// store or a global store.
pub open spec fn is_store(g: &DataFlowGraph, i: int) -> bool {
    let id = g.nodes@[i].compute_fn.0;
    id == CF_WRITEBACK || id == CF_RECORD_FIELD_SET || id == CF_ARRAY_STORE || id
        == CF_GLOBAL_STORE
}

fn is_store_node(graph: &DataFlowGraph, idx: usize) -> (r: bool)
    requires
        idx < graph.nodes@.len(),
    ensures
        r == is_store(graph, idx as int),
{
    let id = graph.nodes[idx].compute_fn.0;
    id == CF_WRITEBACK || id == CF_RECORD_FIELD_SET || id == CF_ARRAY_STORE || id
        == CF_GLOBAL_STORE
}

/// What node `n` waits for: its inputs, and the references of its gate and
/// select branches.
pub open spec fn awaited(g: &DataFlowGraph, n: int) -> Seq<NodeId> {
    g.inputs_of(n) + gate_refs(g.meta@[n].gate_branches) + select_refs(g.meta@[n].select_info)
}

/// The anchors of a subgraph that keep a store: entry, return, condition,
/// iteration, defer registration and event declarations.
pub open spec fn store_anchors(sg: SubGraph) -> Seq<NodeId> {
    seq![sg.return_node, sg.entry_node] + opt_ref(sg.cond_node) + opt_ref(sg.iter_next_node)
        + defer_refs(sg.defer_table@) + decl_refs(sg.event_source_decls@)
}

/// Whether one of the ids stands for `x`.
pub open spec fn stands_among(redirect: Map<u32, u32>, ids: Seq<NodeId>, x: u32) -> bool {
    exists|k: int| 0 <= k < ids.len() && resolved(redirect, (#[trigger] ids[k]).0) == x
}

/// Whether a retained node waits for `x`.
pub open spec fn referenced(
    g: &DataFlowGraph,
    dead: Set<u32>,
    redirect: Map<u32, u32>,
    x: u32,
) -> bool {
    exists|n: int|
        0 <= n < g.nodes@.len() && stays(dead, redirect, n) && #[trigger] stands_among(
            redirect,
            awaited(g, n),
            x,
        )
}

/// Whether a live node that is no store waits for `x`.
pub open spec fn read(g: &DataFlowGraph, redirect: Map<u32, u32>, x: u32) -> bool {
    exists|n: int|
        0 <= n < g.nodes@.len() && live_nodes(g, redirect).contains(n as u32) && !is_store(g, n)
            && #[trigger] stands_among(redirect, awaited(g, n), x)
}

/// Whether a subgraph is anchored at `x`.
pub open spec fn structural(g: &DataFlowGraph, redirect: Map<u32, u32>, x: u32) -> bool {
    exists|s: int|
        0 <= s < g.subgraphs@.len() && #[trigger] stands_among(
            redirect,
            store_anchors(g.subgraphs@[s]),
            x,
        )
}

/// Whether a live node loads the global slot.
pub open spec fn loaded(g: &DataFlowGraph, redirect: Map<u32, u32>, slot: u32) -> bool {
    exists|n: int| #![trigger g.meta@[n]]
        0 <= n < g.nodes@.len() && live_nodes(g, redirect).contains(n as u32)
            && g.nodes@[n].compute_fn.0 == CF_GLOBAL_LOAD && g.meta@[n].global_load_slot == Some(
            slot,
        )
}

/// Whether somebody can observe what the store writes.
pub open spec fn observable(g: &DataFlowGraph, redirect: Map<u32, u32>, i: int) -> bool {
    let id = g.nodes@[i].compute_fn.0;
    ||| id == CF_WRITEBACK && g.meta@[i].writeback_target is Some && {
        let t = resolved(redirect, (g.meta@[i].writeback_target->0).0);
        read(g, redirect, t) || structural(g, redirect, t)
    }
    ||| (id == CF_RECORD_FIELD_SET || id == CF_ARRAY_STORE) && g.inputs_of(i).len() > 0 && read(
        g,
        redirect,
        resolved(redirect, g.inputs_of(i)[0].0),
    )
    ||| id == CF_GLOBAL_STORE && g.meta@[i].global_store_slot is Some && loaded(
        g,
        redirect,
        g.meta@[i].global_store_slot->0,
    )
}

/// Whether the node is a dead store: a retained, live store that raises no
/// signal, is no tail call, anchors no subgraph, is waited for by nothing that
/// is retained, and whose effect nobody can observe.
pub open spec fn dead_store(
    g: &DataFlowGraph,
    dead: Set<u32>,
    redirect: Map<u32, u32>,
    i: int,
) -> bool {
    &&& stays(dead, redirect, i)
    &&& live_nodes(g, redirect).contains(i as u32)
    &&& is_store(g, i)
    &&& !g.meta@[i].tail_call
    &&& !structural(g, redirect, i as u32)
    &&& !referenced(g, dead, redirect, i as u32)
    &&& !observable(g, redirect, i)
}

fn insert_resolved(ctx: &OptimizerContext, ids: &Vec<NodeId>, set: &mut IdSet)
    requires
        acyclic(ctx.redirect@),
    ensures
        forall|x: u32| #[trigger]
            final(set)@.contains(x) <==> old(set)@.contains(x) || stands_among(
                ctx.redirect@,
                ids@,
                x,
            ),
{
    let mut i: usize = 0;
    while i < ids.len()
        invariant
            acyclic(ctx.redirect@),
            i <= ids@.len(),
            forall|x: u32| #[trigger]
                set@.contains(x) <==> old(set)@.contains(x) || exists|k: int|
                    0 <= k < i && resolved(ctx.redirect@, (#[trigger] ids@[k]).0) == x,
        decreases ids@.len() - i,
    {
        let ghost was = set@;
        let r = ctx.resolve(ids[i]);
        set.insert(r.0);
        assert forall|x: u32| #[trigger] set@.contains(x) <==> old(set)@.contains(x) || exists|
            k: int,
        |
            0 <= k < i + 1 && resolved(ctx.redirect@, (#[trigger] ids@[k]).0) == x by {
            if was.contains(x) && !old(set)@.contains(x) {
                let k = choose|k: int|
                    0 <= k < i && resolved(ctx.redirect@, (#[trigger] ids@[k]).0) == x;
                assert(0 <= k < i + 1);
            }
            if set@.contains(x) && !was.contains(x) {
                assert(resolved(ctx.redirect@, ids@[i as int].0) == x);
            }
        }
        i = i + 1;
    }
}

fn awaited_ids(graph: &DataFlowGraph, idx: usize) -> (out: Vec<NodeId>)
    requires
        graph.wf(),
        idx < graph.nodes@.len(),
    ensures
        out@ == awaited(graph, idx as int),
{
    let mut out: Vec<NodeId> = Vec::new();
    let inputs = graph.inputs(idx);
    let mut a: usize = 0;
    while a < inputs.len()
        invariant
            a <= inputs@.len(),
            out@ == inputs@.take(a as int),
        decreases inputs@.len() - a,
    {
        out.push(inputs[a]);
        assert(out@ =~= inputs@.take(a + 1));
        a = a + 1;
    }
    assert(out@ =~= graph.inputs_of(idx as int));
    crate::ir::refs::push_gate(&graph.meta[idx].gate_branches, &mut out);
    crate::ir::refs::push_select(&graph.meta[idx].select_info, &mut out);
    out
}

fn anchor_ids(sg: &SubGraph) -> (out: Vec<NodeId>)
    ensures
        out@ == store_anchors(*sg),
{
    let mut out: Vec<NodeId> = Vec::new();
    out.push(sg.return_node);
    out.push(sg.entry_node);
    crate::ir::refs::push_opt(sg.cond_node, &mut out);
    crate::ir::refs::push_opt(sg.iter_next_node, &mut out);
    crate::ir::refs::push_defers(&sg.defer_table, &mut out);
    crate::ir::refs::push_decls(&sg.event_source_decls, &mut out);
    assert(out@ =~= store_anchors(*sg));
    out
}

/// What retained nodes wait for.
fn collect_referenced(graph: &DataFlowGraph, ctx: &OptimizerContext) -> (set: IdSet)
    requires
        graph.wf(),
        acyclic(ctx.redirect@),
    ensures
        forall|x: u32| #[trigger]
            set@.contains(x) <==> referenced(graph, ctx.dead@, ctx.redirect@, x),
{
    let mut set = IdSet::new();
    let mut i: usize = 0;
    while i < graph.nodes.len()
        invariant
            graph.wf(),
            acyclic(ctx.redirect@),
            i <= graph.nodes@.len(),
            forall|x: u32| #[trigger]
                set@.contains(x) <==> exists|n: int|
                    0 <= n < i && stays(ctx.dead@, ctx.redirect@, n) && #[trigger] stands_among(
                        ctx.redirect@,
                        awaited(graph, n),
                        x,
                    ),
        decreases graph.nodes@.len() - i,
    {
        let ghost was = set@;
        if ctx.is_live(NodeId(i as u32)) {
            let ids = awaited_ids(graph, i);
            insert_resolved(ctx, &ids, &mut set);
        }
        assert forall|x: u32| #[trigger] set@.contains(x) <==> exists|n: int|
            0 <= n < i + 1 && stays(ctx.dead@, ctx.redirect@, n) && #[trigger] stands_among(
                ctx.redirect@,
                awaited(graph, n),
                x,
            ) by {
            if was.contains(x) {
                let n = choose|n: int|
                    0 <= n < i && stays(ctx.dead@, ctx.redirect@, n) && #[trigger] stands_among(
                        ctx.redirect@,
                        awaited(graph, n),
                        x,
                    );
                assert(0 <= n < i + 1);
            }
            if set@.contains(x) && !was.contains(x) {
                assert(stands_among(ctx.redirect@, awaited(graph, i as int), x));
            }
        }
        i = i + 1;
    }
    set
}

/// What live nodes that are no stores wait for.
fn collect_read(graph: &DataFlowGraph, ctx: &OptimizerContext, live: &IdSet) -> (set: IdSet)
    requires
        graph.wf(),
        acyclic(ctx.redirect@),
        live@ == live_nodes(graph, ctx.redirect@),
    ensures
        forall|x: u32| #[trigger] set@.contains(x) <==> read(graph, ctx.redirect@, x),
{
    let mut set = IdSet::new();
    let mut i: usize = 0;
    while i < graph.nodes.len()
        invariant
            graph.wf(),
            acyclic(ctx.redirect@),
            i <= graph.nodes@.len(),
            forall|x: u32| #[trigger]
                set@.contains(x) <==> exists|n: int|
                    0 <= n < i && live@.contains(n as u32) && !is_store(graph, n)
                        && #[trigger] stands_among(ctx.redirect@, awaited(graph, n), x),
        decreases graph.nodes@.len() - i,
    {
        let ghost was = set@;
        if live.contains(i as u32) && !is_store_node(graph, i) {
            let ids = awaited_ids(graph, i);
            insert_resolved(ctx, &ids, &mut set);
        }
        assert forall|x: u32| #[trigger] set@.contains(x) <==> exists|n: int|
            0 <= n < i + 1 && live@.contains(n as u32) && !is_store(graph, n)
                && #[trigger] stands_among(ctx.redirect@, awaited(graph, n), x) by {
            if was.contains(x) {
                let n = choose|n: int|
                    0 <= n < i && live@.contains(n as u32) && !is_store(graph, n)
                        && #[trigger] stands_among(ctx.redirect@, awaited(graph, n), x);
                assert(0 <= n < i + 1);
            }
            if set@.contains(x) && !was.contains(x) {
                assert(stands_among(ctx.redirect@, awaited(graph, i as int), x));
            }
        }
        i = i + 1;
    }
    set
}

/// Where subgraphs are anchored.
fn collect_structural(graph: &DataFlowGraph, ctx: &OptimizerContext) -> (set: IdSet)
    requires
        acyclic(ctx.redirect@),
    ensures
        forall|x: u32| #[trigger] set@.contains(x) <==> structural(graph, ctx.redirect@, x),
{
    let mut set = IdSet::new();
    let mut s: usize = 0;
    while s < graph.subgraphs.len()
        invariant
            acyclic(ctx.redirect@),
            s <= graph.subgraphs@.len(),
            forall|x: u32| #[trigger]
                set@.contains(x) <==> exists|n: int|
                    0 <= n < s && #[trigger] stands_among(
                        ctx.redirect@,
                        store_anchors(graph.subgraphs@[n]),
                        x,
                    ),
        decreases graph.subgraphs@.len() - s,
    {
        let ghost was = set@;
        let ids = anchor_ids(&graph.subgraphs[s]);
        insert_resolved(ctx, &ids, &mut set);
        assert forall|x: u32| #[trigger] set@.contains(x) <==> exists|n: int|
            0 <= n < s + 1 && #[trigger] stands_among(
                ctx.redirect@,
                store_anchors(graph.subgraphs@[n]),
                x,
            ) by {
            if was.contains(x) {
                let n = choose|n: int|
                    0 <= n < s && #[trigger] stands_among(
                        ctx.redirect@,
                        store_anchors(graph.subgraphs@[n]),
                        x,
                    );
                assert(0 <= n < s + 1);
            }
            if set@.contains(x) && !was.contains(x) {
                assert(stands_among(
                    ctx.redirect@,
                    store_anchors(graph.subgraphs@[s as int]),
                    x,
                ));
            }
        }
        s = s + 1;
    }
    set
}

/// The global slots that live nodes load.
fn collect_loaded(graph: &DataFlowGraph, Ghost(redirect): Ghost<Map<u32, u32>>, live: &IdSet) -> (set:
    IdSet)
    requires
        graph.wf(),
        live@ == live_nodes(graph, redirect),
    ensures
        forall|x: u32| #[trigger] set@.contains(x) <==> loaded(graph, redirect, x),
{
    let mut set = IdSet::new();
    let mut i: usize = 0;
    while i < graph.nodes.len()
        invariant
            graph.wf(),
            i <= graph.nodes@.len(),
            forall|x: u32| #[trigger]
                set@.contains(x) <==> exists|n: int| #![trigger graph.meta@[n]]
                    0 <= n < i && live@.contains(n as u32) && graph.nodes@[n].compute_fn.0
                        == CF_GLOBAL_LOAD && graph.meta@[n].global_load_slot == Some(x),
        decreases graph.nodes@.len() - i,
    {
        let ghost was = set@;
        if live.contains(i as u32) && graph.nodes[i].compute_fn.0 == CF_GLOBAL_LOAD {
            if let Some(slot) = graph.meta[i].global_load_slot {
                set.insert(slot);
            }
        }
        assert forall|x: u32| #[trigger] set@.contains(x) <==> exists|n: int| #![trigger graph.meta@[n]]
            0 <= n < i + 1 && live@.contains(n as u32) && graph.nodes@[n].compute_fn.0
                == CF_GLOBAL_LOAD && graph.meta@[n].global_load_slot == Some(x) by {
            if was.contains(x) {
                let n = choose|n: int| #![trigger graph.meta@[n]]
                    0 <= n < i && live@.contains(n as u32) && graph.nodes@[n].compute_fn.0
                        == CF_GLOBAL_LOAD && graph.meta@[n].global_load_slot == Some(x);
                assert(0 <= n < i + 1 && graph.meta@[n].global_load_slot == Some(x));
            }
            if set@.contains(x) && !was.contains(x) {
                assert(graph.meta@[i as int].global_load_slot == Some(x));
            }
        }
        i = i + 1;
    }
    set
}

/// Marks the dead stores as dead.
pub fn pass_dse(graph: &DataFlowGraph, ctx: &mut OptimizerContext)
    requires
        live_walkable(graph, old(ctx).redirect@),
        acyclic(old(ctx).redirect@),
    ensures
        *final(ctx) == (OptimizerContext { dead: final(ctx).dead, ..*old(ctx) }),
        forall|x: u32| #[trigger]
            final(ctx).dead@.contains(x) <==> old(ctx).dead@.contains(x) || (x < graph.nodes@.len()
                && dead_store(graph, old(ctx).dead@, old(ctx).redirect@, x as int)),
{
    let ghost dead0 = ctx.dead@;
    let ghost red = ctx.redirect@;
    let live = compute_live_nodes(graph, ctx);
    let all_refs = collect_referenced(graph, ctx);
    let read_refs = collect_read(graph, ctx, &live);
    let struct_refs = collect_structural(graph, ctx);
    let loaded_slots = collect_loaded(graph, Ghost(red), &live);
    let mut i: usize = 0;
    while i < graph.nodes.len()
        invariant
            graph.wf(),
            acyclic(red),
            i <= graph.nodes@.len(),
            dead0 == old(ctx).dead@,
            red == ctx.redirect@,
            *ctx == (OptimizerContext { dead: ctx.dead, ..*old(ctx) }),
            live@ == live_nodes(graph, red),
            forall|x: u32| #[trigger]
                all_refs@.contains(x) <==> referenced(graph, dead0, red, x),
            forall|x: u32| #[trigger] read_refs@.contains(x) <==> read(graph, red, x),
            forall|x: u32| #[trigger] struct_refs@.contains(x) <==> structural(graph, red, x),
            forall|x: u32| #[trigger] loaded_slots@.contains(x) <==> loaded(graph, red, x),
            forall|x: u32| #[trigger]
                ctx.dead@.contains(x) <==> dead0.contains(x) || (x < i && dead_store(
                    graph,
                    dead0,
                    red,
                    x as int,
                )),
        decreases graph.nodes@.len() - i,
    {
        let id = NodeId(i as u32);
        if ctx.is_live(id) && live.contains(id.0) && is_store_node(graph, i)
            && !is_control_flow_compute_fn(graph.nodes[i].compute_fn) && !graph.meta[i].tail_call
            && !struct_refs.contains(id.0) && !all_refs.contains(id.0) {
            let seen = store_is_observable(
                graph,
                ctx,
                i,
                &read_refs,
                &struct_refs,
                &loaded_slots,
            );
            if !seen {
                assert(dead_store(graph, dead0, red, i as int));
                ctx.dead.insert(id.0);
            }
        } else {
            assert(!dead_store(graph, dead0, red, i as int));
        }
        i = i + 1;
    }
}

fn store_is_observable(
    graph: &DataFlowGraph,
    ctx: &OptimizerContext,
    i: usize,
    read_refs: &IdSet,
    struct_refs: &IdSet,
    loaded_slots: &IdSet,
) -> (r: bool)
    requires
        graph.wf(),
        acyclic(ctx.redirect@),
        i < graph.nodes@.len(),
        forall|x: u32| #[trigger]
            read_refs@.contains(x) <==> read(graph, ctx.redirect@, x),
        forall|x: u32| #[trigger]
            struct_refs@.contains(x) <==> structural(graph, ctx.redirect@, x),
        forall|x: u32| #[trigger]
            loaded_slots@.contains(x) <==> loaded(graph, ctx.redirect@, x),
    ensures
        r == observable(graph, ctx.redirect@, i as int),
{
    let cf = graph.nodes[i].compute_fn.0;
    if cf == CF_WRITEBACK {
        if let Some(t) = graph.meta[i].writeback_target {
            let r = ctx.resolve(t);
            return read_refs.contains(r.0) || struct_refs.contains(r.0);
        }
        return false;
    }
    if cf == CF_RECORD_FIELD_SET || cf == CF_ARRAY_STORE {
        let inputs = graph.inputs(i);
        if inputs.len() > 0 {
            let r = ctx.resolve(inputs[0]);
            return read_refs.contains(r.0);
        }
        return false;
    }
    if cf == CF_GLOBAL_STORE {
        if let Some(slot) = graph.meta[i].global_store_slot {
            return loaded_slots.contains(slot);
        }
    }
    false
}

// ---- laws ------------------------------------------------------------------

/// Only stores are ever eliminated, and never one that raises a control
/// signal, is a tail call or anchors a subgraph.
pub proof fn law_dse_kills_only_stores(
    g: &DataFlowGraph,
    dead: Set<u32>,
    redirect: Map<u32, u32>,
    i: int,
)
    requires
        dead_store(g, dead, redirect, i),
    ensures
        is_store(g, i),
        !is_control_flow_id(g.nodes@[i].compute_fn.0),
        !g.meta@[i].tail_call,
        !structural(g, redirect, i as u32),
{
}

/// No input of a retained node is an eliminated store.
pub proof fn law_dse_keeps_inputs(
    g: &DataFlowGraph,
    dead: Set<u32>,
    redirect: Map<u32, u32>,
    n: int,
    j: int,
)
    requires
        0 <= n < g.nodes@.len(),
        stays(dead, redirect, n),
        0 <= j < g.inputs_of(n).len(),
    ensures
        !dead_store(g, dead, redirect, resolved(redirect, g.inputs_of(n)[j].0) as int),
{
    let x = resolved(redirect, g.inputs_of(n)[j].0);
    assert(awaited(g, n)[j] == g.inputs_of(n)[j]);
    assert(stands_among(redirect, awaited(g, n), x));
    assert(referenced(g, dead, redirect, (x as int) as u32));
}

/// A store to a module variable stays where a live node loads the variable.
pub proof fn law_loaded_stores_stay(g: &DataFlowGraph, dead: Set<u32>, redirect: Map<u32, u32>, i: int, n: int)
    requires
        g.nodes@[i].compute_fn.0 == CF_GLOBAL_STORE,
        0 <= n < g.nodes@.len(),
        live_nodes(g, redirect).contains(n as u32),
        g.nodes@[n].compute_fn.0 == CF_GLOBAL_LOAD,
        g.meta@[n].global_load_slot is Some,
        g.meta@[n].global_load_slot == g.meta@[i].global_store_slot,
    ensures
        !dead_store(g, dead, redirect, i),
{
    assert(g.meta@[n] == g.meta@[n]);
}

/// A writeback stays where a live node that stores nothing takes the written
/// node, as it is redirected, as an input.
pub proof fn law_used_writebacks_stay(
    g: &DataFlowGraph,
    dead: Set<u32>,
    redirect: Map<u32, u32>,
    i: int,
    n: int,
    j: int,
)
    requires
        g.nodes@[i].compute_fn.0 == CF_WRITEBACK,
        g.meta@[i].writeback_target is Some,
        reads_at(g, redirect, n, j, resolved(redirect, (g.meta@[i].writeback_target->0).0)),
    ensures
        !dead_store(g, dead, redirect, i),
{
    lemma_read_at(g, redirect, n, j, resolved(redirect, (g.meta@[i].writeback_target->0).0));
}

/// A store to a field or an item stays where a live node that stores nothing
/// takes the object, as it is redirected, as an input.
pub proof fn law_used_objects_keep_their_stores(
    g: &DataFlowGraph,
    dead: Set<u32>,
    redirect: Map<u32, u32>,
    i: int,
    n: int,
    j: int,
)
    requires
        g.nodes@[i].compute_fn.0 == CF_RECORD_FIELD_SET || g.nodes@[i].compute_fn.0 == CF_ARRAY_STORE,
        g.inputs_of(i).len() > 0,
        reads_at(g, redirect, n, j, resolved(redirect, g.inputs_of(i)[0].0)),
    ensures
        !dead_store(g, dead, redirect, i),
{
    lemma_read_at(g, redirect, n, j, resolved(redirect, g.inputs_of(i)[0].0));
}

/// Input `j` of the live node `n`, which stores nothing, stands for `x`.
pub open spec fn reads_at(g: &DataFlowGraph, redirect: Map<u32, u32>, n: int, j: int, x: u32) -> bool {
    &&& 0 <= n < g.nodes@.len()
    &&& live_nodes(g, redirect).contains(n as u32)
    &&& g.nodes@[n].compute_fn.0 != CF_WRITEBACK
    &&& g.nodes@[n].compute_fn.0 != CF_RECORD_FIELD_SET
    &&& g.nodes@[n].compute_fn.0 != CF_ARRAY_STORE
    &&& g.nodes@[n].compute_fn.0 != CF_GLOBAL_STORE
    &&& 0 <= j < g.inputs_of(n).len()
    &&& resolved(redirect, g.inputs_of(n)[j].0) == x
}

proof fn lemma_read_at(g: &DataFlowGraph, redirect: Map<u32, u32>, n: int, j: int, x: u32)
    requires
        reads_at(g, redirect, n, j, x),
    ensures
        read(g, redirect, x),
{
    assert(awaited(g, n)[j] == g.inputs_of(n)[j]);
    assert(stands_among(redirect, awaited(g, n), x));
}

/// A gate that is live keeps the writebacks to its condition and to what it
/// hands to its branches.
pub proof fn law_gates_keep_writebacks(
    g: &DataFlowGraph,
    dead: Set<u32>,
    redirect: Map<u32, u32>,
    i: int,
    n: int,
    x: NodeId,
)
    requires
        g.nodes@[i].compute_fn.0 == CF_WRITEBACK,
        g.meta@[i].writeback_target is Some,
        resolved(redirect, (g.meta@[i].writeback_target->0).0) == resolved(redirect, x.0),
        0 <= n < g.nodes@.len(),
        live_nodes(g, redirect).contains(n as u32),
        g.nodes@[n].compute_fn.0 != CF_WRITEBACK,
        g.nodes@[n].compute_fn.0 != CF_RECORD_FIELD_SET,
        g.nodes@[n].compute_fn.0 != CF_ARRAY_STORE,
        g.nodes@[n].compute_fn.0 != CF_GLOBAL_STORE,
        g.meta@[n].gate_branches is Some,
        x == (g.meta@[n].gate_branches->0).condition_input || exists|b: int|
            0 <= b < (g.meta@[n].gate_branches->0).branches@.len() && (#[trigger] (
            g.meta@[n].gate_branches->0).branches@[b]).params@.contains(x),
    ensures
        !dead_store(g, dead, redirect, i),
{
    let gb = g.meta@[n].gate_branches;
    law_gates_are_listed(gb->0, x);
    let k = choose|k: int| 0 <= k < gate_refs(gb).len() && gate_refs(gb)[k] == x;
    let at = g.inputs_of(n).len() + k;
    assert(awaited(g, n)[at] == x);
    assert(stands_among(redirect, awaited(g, n), resolved(redirect, x.0)));
    assert(read(g, redirect, resolved(redirect, x.0)));
}

/// A node that is the value, the entry, the condition or the iteration step of
/// a subgraph keeps the writebacks to it, and is itself no dead store.
pub proof fn law_anchored_nodes_keep_writebacks(
    g: &DataFlowGraph,
    dead: Set<u32>,
    redirect: Map<u32, u32>,
    i: int,
    s: int,
    x: NodeId,
)
    requires
        0 <= s < g.subgraphs@.len(),
        x == g.subgraphs@[s].return_node || x == g.subgraphs@[s].entry_node || g.subgraphs@[s].cond_node == Some(x)
            || g.subgraphs@[s].iter_next_node == Some(x),
        g.nodes@[i].compute_fn.0 == CF_WRITEBACK && (g.meta@[i].writeback_target matches Some(t) && resolved(
            redirect,
            t.0,
        ) == resolved(redirect, x.0)) || i == resolved(redirect, x.0),
    ensures
        !dead_store(g, dead, redirect, i),
{
    let sg = g.subgraphs@[s];
    let anchors = store_anchors(sg);
    assert(anchors[0] == sg.return_node && anchors[1] == sg.entry_node);
    if sg.cond_node == Some(x) {
        assert(anchors[2] == x);
    }
    if sg.iter_next_node == Some(x) {
        assert(anchors[2 + opt_ref(sg.cond_node).len() as int] == x);
    }
    assert(stands_among(redirect, anchors, resolved(redirect, x.0)));
    assert(structural(g, redirect, resolved(redirect, x.0)));
}

} // verus!
