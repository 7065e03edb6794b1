//! The constant-folding pass.
//!
//! A node all of whose inputs are constants becomes a constant in place: it
//! keeps its id, so it stays in its subgraph's range. Sweeps over the graph
//! repeat until one folds nothing.

use vstd::prelude::*;

use crate::fx::IdSet;
use crate::ir::compute_fns::CF_NOOP;
use crate::ir::graph::DataFlowGraph;
use crate::ir::layout::stays;
use crate::ir::meta::NodeMeta;
use crate::ir::redirect::resolved;
use crate::ir::types::{ComputeFnId, ConstValue, Node, NodeId, NodeKind};
use crate::pass::context::OptimizerContext;
use crate::pass::fold::{folded, try_fold};
use crate::pass::liveness::{
    collect_writeback_targets, has_side_effect, is_writeback_target, side_effect,
};

verus! {

/// Whether input `j` of node `i` is a constant: the node that it stands for
/// has a constant value, and no writeback overwrites it.
pub open spec fn const_input(g: &DataFlowGraph, redirect: Map<u32, u32>, i: int, j: int) -> bool {
    let r = resolved(redirect, g.inputs_of(i)[j].0);
    !is_writeback_target(g, r) && r < g.meta@.len() && g.meta@[r as int].const_value is Some
}

/// Whether the pass may fold the node at all: it is retained, not a constant
/// yet, free of side effects, and has inputs, all of them constants.
pub open spec fn all_inputs_const(
    g: &DataFlowGraph,
    dead: Set<u32>,
    redirect: Map<u32, u32>,
    i: int,
) -> bool {
    &&& stays(dead, redirect, i)
    &&& g.nodes@[i].kind != NodeKind::Const
    &&& !side_effect(g, i)
    &&& g.inputs_of(i).len() > 0
    &&& forall|j: int| #![trigger g.inputs_of(i)[j]]
        0 <= j < g.inputs_of(i).len() ==> const_input(g, redirect, i, j)
}

/// The values of the node's inputs.
pub open spec fn input_consts(g: &DataFlowGraph, redirect: Map<u32, u32>, i: int) -> Seq<ConstValue> {
    Seq::new(
        g.inputs_of(i).len(),
        |j: int| g.meta@[resolved(redirect, g.inputs_of(i)[j].0) as int].const_value->0,
    )
}

/// The constant that the node folds to, if it folds.
pub open spec fn fold_at(
    g: &DataFlowGraph,
    dead: Set<u32>,
    redirect: Map<u32, u32>,
    i: int,
) -> Option<ConstValue> {
    if all_inputs_const(g, dead, redirect, i) {
        folded(g.nodes@[i].compute_fn.0, input_consts(g, redirect, i))
    } else {
        None
    }
}

/// The node of a folded constant.
pub open spec fn const_node(g: &DataFlowGraph) -> Node {
    Node {
        kind: NodeKind::Const,
        input_count: 0,
        inputs_offset: g.inputs_pool@.len() as u32,
        compute_fn: ComputeFnId(CF_NOOP),
    }
}

/// `b` is `a` after one sweep: every node that folds in `a` is a constant.
pub open spec fn swept(
    a: &DataFlowGraph,
    b: &DataFlowGraph,
    dead: Set<u32>,
    redirect: Map<u32, u32>,
) -> bool {
    &&& b.nodes@.len() == a.nodes@.len()
    &&& b.meta@.len() == a.meta@.len()
    &&& forall|i: int| #![trigger b.nodes@[i]] #![trigger b.meta@[i]]
        0 <= i < a.nodes@.len() ==> match fold_at(a, dead, redirect, i) {
            Some(v) => b.nodes@[i] == const_node(a) && b.meta@[i] == (NodeMeta {
                const_value: Some(v),
                ..a.meta@[i]
            }),
            None => b.nodes@[i] == a.nodes@[i] && b.meta@[i] == a.meta@[i],
        }
    &&& b.inputs_pool@ == a.inputs_pool@
    &&& b.same_frame(a)
}

/// The graphs run from the first to the last sweep by sweep, and nothing folds
/// in the last one.
pub open spec fn fold_chain(
    gs: Seq<DataFlowGraph>,
    first: DataFlowGraph,
    last: DataFlowGraph,
    dead: Set<u32>,
    redirect: Map<u32, u32>,
) -> bool {
    &&& gs.len() > 0
    &&& gs[0] == first
    &&& gs[gs.len() - 1] == last
    &&& forall|k: int| #![trigger gs[k]]
        0 <= k < gs.len() - 1 ==> swept(&gs[k], &gs[k + 1], dead, redirect)
    &&& forall|i: int|
        0 <= i < last.nodes@.len() ==> #[trigger] fold_at(&last, dead, redirect, i) is None
}

/// Number of the first `n` nodes that became constants.
pub open spec fn became_const(a: &DataFlowGraph, b: &DataFlowGraph, n: int) -> nat
    decreases n,
{
    if n <= 0 {
        0
    } else {
        became_const(a, b, n - 1) + if a.nodes@[n - 1].kind != NodeKind::Const && b.nodes@[n
            - 1].kind == NodeKind::Const {
            1nat
        } else {
            0nat
        }
    }
}

/// A node to fold: its compute function and the constants that go in.
#[derive(Debug)]
pub struct FoldCandidate {
    pub idx: usize,
    pub compute_fn: ComputeFnId,
    pub args: Vec<ConstValue>,
}

/// The constant inputs of a node, if it may fold at all.
pub fn constant_args(graph: &DataFlowGraph, ctx: &OptimizerContext, wb_targets: &IdSet, i: usize) -> (r:
    Option<Vec<ConstValue>>)
    requires
        graph.wf(),
        i < graph.nodes@.len(),
        crate::ir::redirect::acyclic(ctx.redirect@),
        forall|id: u32| #[trigger]
            wb_targets@.contains(id) <==> is_writeback_target(graph, id),
    ensures
        r is Some <==> all_inputs_const(graph, ctx.dead@, ctx.redirect@, i as int),
        r is Some ==> r->0@ == input_consts(graph, ctx.redirect@, i as int),
{
    if !ctx.is_live(NodeId(i as u32)) {
        return None;
    }
    if graph.nodes[i].kind == NodeKind::Const {
        return None;
    }
    if has_side_effect(graph, i) {
        return None;
    }
    let inputs = graph.inputs(i);
    if inputs.len() == 0 {
        return None;
    }
    let ghost red = ctx.redirect@;
    let ghost want = input_consts(graph, red, i as int);
    let mut args: Vec<ConstValue> = Vec::new();
    let mut j: usize = 0;
    while j < inputs.len()
        invariant
            graph.wf(),
            i < graph.nodes@.len(),
            crate::ir::redirect::acyclic(red),
            red == ctx.redirect@,
            inputs@ == graph.inputs_of(i as int),
            want == input_consts(graph, red, i as int),
            forall|id: u32| #[trigger]
                wb_targets@.contains(id) <==> is_writeback_target(graph, id),
            j <= inputs@.len(),
            forall|k: int| 0 <= k < j ==> #[trigger] const_input(graph, red, i as int, k),
            args@ == want.take(j as int),
        decreases inputs@.len() - j,
    {
        let r = ctx.resolve(inputs[j]);
        assert(r.0 == resolved(red, graph.inputs_of(i as int)[j as int].0));
        if wb_targets.contains(r.0) {
            assert(!const_input(graph, red, i as int, j as int));
            return None;
        }
        if r.0 as usize >= graph.meta.len() {
            assert(!const_input(graph, red, i as int, j as int));
            return None;
        }
        match graph.meta[r.0 as usize].const_value {
            None => {
                assert(!const_input(graph, red, i as int, j as int));
                return None;
            },
            Some(cv) => {
                args.push(cv);
            },
        }
        assert(const_input(graph, red, i as int, j as int));
        assert(args@ =~= want.take(j + 1));
        j = j + 1;
    }
    assert(args@ =~= want);
    Some(args)
}

/// Rewrites node `i` into a constant.
pub fn make_const(graph: &mut DataFlowGraph, i: usize, value: ConstValue)
    requires
        i < old(graph).nodes@.len(),
        old(graph).meta@.len() == old(graph).nodes@.len() <= u32::MAX,
        old(graph).inputs_pool@.len() <= u32::MAX,
    ensures
        final(graph).nodes@ == old(graph).nodes@.update(i as int, const_node(old(graph))),
        final(graph).meta@ == old(graph).meta@.update(
            i as int,
            (NodeMeta { const_value: Some(value), ..old(graph).meta@[i as int] }),
        ),
        final(graph).inputs_pool@ == old(graph).inputs_pool@,
        final(graph).same_frame(old(graph)),
{
    let offset = graph.inputs_pool.len() as u32;
    graph.nodes.set(
        i,
        Node {
            kind: NodeKind::Const,
            input_count: 0,
            inputs_offset: offset,
            compute_fn: ComputeFnId(CF_NOOP),
        },
    );
    graph.set_const_value(NodeId(i as u32), value);
}

proof fn lemma_became_bound(a: &DataFlowGraph, b: &DataFlowGraph, n: int)
    ensures
        n >= 0 ==> became_const(a, b, n) <= n,
    decreases n,
{
    if n > 0 {
        lemma_became_bound(a, b, n - 1);
    }
}

proof fn lemma_became_none(a: &DataFlowGraph, n: int)
    ensures
        became_const(a, a, n) == 0,
    decreases n,
{
    if n > 0 {
        lemma_became_none(a, n - 1);
    }
}

/// A sweep leaves side effects, writeback targets and pool bounds alone.
proof fn lemma_swept_frame(
    a: &DataFlowGraph,
    b: &DataFlowGraph,
    dead: Set<u32>,
    redirect: Map<u32, u32>,
)
    requires
        a.wf(),
        swept(a, b, dead, redirect),
    ensures
        b.wf(),
        forall|id: u32| #[trigger] is_writeback_target(b, id) <==> is_writeback_target(a, id),
{
    assert forall|i: int| #![trigger b.nodes@[i]] 0 <= i < b.nodes@.len() implies b.nodes@[i].inputs_offset
        + b.nodes@[i].input_count <= b.inputs_pool@.len() by {
        assert(a.nodes@[i] == a.nodes@[i]);
    }
    assert forall|id: u32| #[trigger] is_writeback_target(b, id) <==> is_writeback_target(a, id) by {
        if is_writeback_target(b, id) {
            let i = choose|i: int|
                0 <= i < b.meta@.len() && (#[trigger] b.meta@[i]).writeback_target == Some(
                    NodeId(id),
                );
            assert(a.meta@[i].writeback_target == Some(NodeId(id)));
        }
        if is_writeback_target(a, id) {
            let i = choose|i: int|
                0 <= i < a.meta@.len() && (#[trigger] a.meta@[i]).writeback_target == Some(
                    NodeId(id),
                );
            assert(b.meta@[i].writeback_target == Some(NodeId(id)));
        }
    }
}

/// Folds constants until nothing more folds.
pub fn pass_const_fold(graph: &mut DataFlowGraph, ctx: &mut OptimizerContext)
    requires
        old(graph).wf(),
        crate::ir::redirect::acyclic(old(ctx).redirect@),
        old(ctx).cf_folded_count + old(graph).nodes@.len() <= usize::MAX,
    ensures
        exists|gs: Seq<DataFlowGraph>| #[trigger]
            fold_chain(gs, *old(graph), *final(graph), old(ctx).dead@, old(ctx).redirect@),
        final(graph).wf(),
        final(graph).subgraphs@ == old(graph).subgraphs@,
        became_const(old(graph), final(graph), old(graph).nodes@.len() as int) == 0 ==> *final(graph) == *old(graph),
        ({
            let n = became_const(old(graph), final(graph), old(graph).nodes@.len() as int);
            *final(ctx) == (OptimizerContext {
                mutated: old(ctx).mutated || n > 0,
                cf_folded_count: (old(ctx).cf_folded_count + n) as usize,
                ..*old(ctx)
            })
        }),
{
    let ghost first = *graph;
    let ghost dead = ctx.dead@;
    let ghost red = ctx.redirect@;
    let n = graph.nodes.len();
    let wb_targets = collect_writeback_targets(graph);
    let mut total: usize = 0;
    let ghost mut chain = seq![first];
    proof {
        lemma_became_none(&first, n as int);
    }
    loop
        invariant
            n == graph.nodes@.len() == first.nodes@.len(),
            first == *old(graph),
            graph.wf(),
            graph.subgraphs@ == first.subgraphs@,
            *ctx == *old(ctx),
            dead == ctx.dead@,
            red == ctx.redirect@,
            crate::ir::redirect::acyclic(red),
            forall|id: u32| #[trigger]
                wb_targets@.contains(id) <==> is_writeback_target(graph, id),
            chain.len() > 0,
            chain[0] == first,
            chain[chain.len() - 1] == *graph,
            forall|k: int| #![trigger chain[k]]
                0 <= k < chain.len() - 1 ==> swept(&chain[k], &chain[k + 1], dead, red),
            total == became_const(&first, graph, n as int),
            total <= n,
            total == 0 ==> *graph == first,
            forall|i: int|
                0 <= i < n && first.nodes@[i].kind == NodeKind::Const ==> (
                #[trigger] graph.nodes@[i]).kind == NodeKind::Const,
        ensures
            total == 0 ==> *graph == first,
            first == *old(graph),
            n == graph.nodes@.len() == first.nodes@.len(),
            graph.wf(),
            graph.subgraphs@ == first.subgraphs@,
            *ctx == *old(ctx),
            fold_chain(chain, first, *graph, dead, red),
            total == became_const(&first, graph, n as int),
            total <= n,
        decreases n - total,
    {
        let ghost before = *graph;
        let folds = collect_folds(graph, ctx, &wb_targets);
        if folds.len() == 0 {
            proof {
                assert forall|i: int| 0 <= i < n implies #[trigger] fold_at(
                    graph,
                    dead,
                    red,
                    i,
                ) is None by {
                    if fold_at(graph, dead, red, i) is Some {
                        assert(folds@.len() > 0);
                    }
                }
            }
            break;
        }
        apply_folds(graph, &folds);
        proof {
            lemma_applied_is_swept(&before, graph, folds@, dead, red);
            lemma_swept_frame(&before, graph, dead, red);
            lemma_folds_count(&first, &before, graph, folds@, dead, red, folds@.len() as int);
            let next = chain.push(*graph);
            assert forall|k: int| #![trigger next[k]] 0 <= k < next.len() - 1 implies swept(
                &next[k],
                &next[k + 1],
                dead,
                red,
            ) by {
                if k < chain.len() - 1 {
                    assert(next[k] == chain[k] && next[k + 1] == chain[k + 1]);
                }
            }
            chain = next;
            lemma_became_bound(&first, graph, n as int);
            assert forall|i: int| 0 <= i < n && first.nodes@[i].kind == NodeKind::Const implies (
            #[trigger] graph.nodes@[i]).kind == NodeKind::Const by {
                assert(before.nodes@[i].kind == NodeKind::Const);
            }
        }
        total = total + folds.len();
    }
    if total > 0 {
        ctx.mutated = true;
        ctx.cf_folded_count = ctx.cf_folded_count + total;
    }
}

/// The folds list exactly the nodes that fold, in id order.
spec fn folds_listed(
    g: &DataFlowGraph,
    dead: Set<u32>,
    redirect: Map<u32, u32>,
    folds: Seq<(usize, ConstValue)>,
    n: int,
) -> bool {
    &&& forall|k: int|
        0 <= k < folds.len() ==> (#[trigger] folds[k]).0 < n && fold_at(
            g,
            dead,
            redirect,
            folds[k].0 as int,
        ) == Some(folds[k].1)
    &&& forall|k: int, l: int|
        0 <= k < l < folds.len() ==> (#[trigger] folds[k]).0 < (#[trigger] folds[l]).0
    &&& forall|i: int|
        0 <= i < n && (#[trigger] fold_at(g, dead, redirect, i)) is Some ==> exists|k: int|
            0 <= k < folds.len() && (#[trigger] folds[k]).0 == i
}

fn collect_folds(graph: &DataFlowGraph, ctx: &OptimizerContext, wb_targets: &IdSet) -> (folds: Vec<
    (usize, ConstValue),
>)
    requires
        graph.wf(),
        crate::ir::redirect::acyclic(ctx.redirect@),
        forall|id: u32| #[trigger]
            wb_targets@.contains(id) <==> is_writeback_target(graph, id),
    ensures
        folds_listed(graph, ctx.dead@, ctx.redirect@, folds@, graph.nodes@.len() as int),
{
    let ghost dead = ctx.dead@;
    let ghost red = ctx.redirect@;
    let mut folds: Vec<(usize, ConstValue)> = Vec::new();
    let mut i: usize = 0;
    while i < graph.nodes.len()
        invariant
            graph.wf(),
            crate::ir::redirect::acyclic(red),
            dead == ctx.dead@,
            red == ctx.redirect@,
            forall|id: u32| #[trigger]
                wb_targets@.contains(id) <==> is_writeback_target(graph, id),
            i <= graph.nodes@.len(),
            folds_listed(graph, dead, red, folds@, i as int),
        decreases graph.nodes@.len() - i,
    {
        let ghost was = folds@;
        let mut found: Option<ConstValue> = None;
        if let Some(args) = constant_args(graph, ctx, wb_targets, i) {
            found = try_fold(graph.nodes[i].compute_fn, args.as_slice());
        }
        assert(found == fold_at(graph, dead, red, i as int));
        if let Some(v) = found {
            folds.push((i, v));
        }
        proof {
            assert forall|q: int| 0 <= q < i + 1 && (#[trigger] fold_at(
                graph,
                dead,
                red,
                q,
            )) is Some implies exists|k: int|
                0 <= k < folds@.len() && (#[trigger] folds@[k]).0 == q by {
                if q < i {
                    let k = choose|k: int| 0 <= k < was.len() && (#[trigger] was[k]).0 == q;
                    assert(folds@[k].0 == q);
                } else {
                    assert(folds@[was.len() as int].0 == q);
                }
            }
        }
        i = i + 1;
    }
    folds
}

/// `b` is `a` with the first `m` folds written.
spec fn folds_written(
    a: &DataFlowGraph,
    b: &DataFlowGraph,
    folds: Seq<(usize, ConstValue)>,
    m: int,
) -> bool {
    &&& b.nodes@.len() == a.nodes@.len()
    &&& b.meta@.len() == a.meta@.len()
    &&& b.inputs_pool@ == a.inputs_pool@
    &&& b.same_frame(a)
    &&& forall|k: int| #![trigger folds[k]]
        0 <= k < m ==> b.nodes@[folds[k].0 as int] == const_node(a) && b.meta@[folds[k].0 as int]
            == (NodeMeta { const_value: Some(folds[k].1), ..a.meta@[folds[k].0 as int] })
    &&& forall|i: int| #![trigger b.nodes@[i]] #![trigger b.meta@[i]]
        0 <= i < a.nodes@.len() && (forall|k: int| 0 <= k < m ==> (#[trigger] folds[k]).0 != i)
            ==> b.nodes@[i] == a.nodes@[i] && b.meta@[i] == a.meta@[i]
}

fn apply_folds(graph: &mut DataFlowGraph, folds: &Vec<(usize, ConstValue)>)
    requires
        old(graph).wf(),
        forall|k: int|
            0 <= k < folds@.len() ==> (#[trigger] folds@[k]).0 < old(graph).nodes@.len(),
        forall|k: int, l: int|
            0 <= k < l < folds@.len() ==> (#[trigger] folds@[k]).0 < (#[trigger] folds@[l]).0,
    ensures
        folds_written(old(graph), final(graph), folds@, folds@.len() as int),
{
    let ghost a = *graph;
    let mut k: usize = 0;
    while k < folds.len()
        invariant
            a == *old(graph),
            a.wf(),
            forall|k: int| 0 <= k < folds@.len() ==> (#[trigger] folds@[k]).0 < a.nodes@.len(),
            forall|k: int, l: int|
                0 <= k < l < folds@.len() ==> (#[trigger] folds@[k]).0 < (#[trigger] folds@[l]).0,
            k <= folds@.len(),
            folds_written(&a, graph, folds@, k as int),
        decreases folds@.len() - k,
    {
        let (i, v) = folds[k];
        let ghost prev = *graph;
        assert(folds@[k as int].0 == i);
        assert forall|q: int| 0 <= q < k implies (#[trigger] folds@[q]).0 != i by {
            assert(folds@[q].0 < folds@[k as int].0);
        }
        assert(prev.meta@[i as int] == a.meta@[i as int]);
        make_const(graph, i, v);
        proof {
            assert forall|q: int| #![trigger folds@[q]] 0 <= q < k + 1 implies graph.nodes@[folds@[q].0 as int]
                == const_node(&a) && graph.meta@[folds@[q].0 as int] == (NodeMeta {
                const_value: Some(folds@[q].1),
                ..a.meta@[folds@[q].0 as int]
            }) by {
                if q < k {
                    assert(folds@[q].0 < folds@[k as int].0);
                }
            }
            assert forall|j: int| #![trigger graph.nodes@[j]] #![trigger graph.meta@[j]]
                0 <= j < a.nodes@.len() && (forall|q: int|
                    0 <= q < k + 1 ==> (#[trigger] folds@[q]).0 != j) implies graph.nodes@[j]
                == a.nodes@[j] && graph.meta@[j] == a.meta@[j] by {
                assert(folds@[k as int].0 != j);
                assert(prev.nodes@[j] == a.nodes@[j]);
            }
        }
        k = k + 1;
    }
}

proof fn lemma_applied_is_swept(
    a: &DataFlowGraph,
    b: &DataFlowGraph,
    folds: Seq<(usize, ConstValue)>,
    dead: Set<u32>,
    redirect: Map<u32, u32>,
)
    requires
        a.wf(),
        folds_listed(a, dead, redirect, folds, a.nodes@.len() as int),
        folds_written(a, b, folds, folds.len() as int),
    ensures
        swept(a, b, dead, redirect),
{
    assert forall|i: int| #![trigger b.nodes@[i]] #![trigger b.meta@[i]]
        0 <= i < a.nodes@.len() implies match fold_at(a, dead, redirect, i) {
        Some(v) => b.nodes@[i] == const_node(a) && b.meta@[i] == (NodeMeta {
            const_value: Some(v),
            ..a.meta@[i]
        }),
        None => b.nodes@[i] == a.nodes@[i] && b.meta@[i] == a.meta@[i],
    } by {
        if fold_at(a, dead, redirect, i) is Some {
            let k = choose|k: int| 0 <= k < folds.len() && (#[trigger] folds[k]).0 == i;
            assert(folds[k].0 == i);
        } else {
            assert forall|k: int| 0 <= k < folds.len() implies (#[trigger] folds[k]).0 != i by {
                assert(fold_at(a, dead, redirect, folds[k].0 as int) is Some);
            }
        }
    }
}

/// Number of the first `n` nodes in a list of folds.
proof fn lemma_folds_count(
    first: &DataFlowGraph,
    a: &DataFlowGraph,
    b: &DataFlowGraph,
    folds: Seq<(usize, ConstValue)>,
    dead: Set<u32>,
    redirect: Map<u32, u32>,
    m: int,
)
    requires
        a.wf(),
        0 <= m <= folds.len(),
        first.nodes@.len() == a.nodes@.len(),
        folds_listed(a, dead, redirect, folds, a.nodes@.len() as int),
        swept(a, b, dead, redirect),
        m == folds.len(),
        forall|i: int|
            0 <= i < a.nodes@.len() && first.nodes@[i].kind == NodeKind::Const ==> (
            #[trigger] a.nodes@[i]).kind == NodeKind::Const,
    ensures
        became_const(first, b, a.nodes@.len() as int) == became_const(
            first,
            a,
            a.nodes@.len() as int,
        ) + m,
{
    lemma_folds_count_upto(first, a, b, folds, dead, redirect, a.nodes@.len() as int, m);
}

proof fn lemma_folds_count_upto(
    first: &DataFlowGraph,
    a: &DataFlowGraph,
    b: &DataFlowGraph,
    folds: Seq<(usize, ConstValue)>,
    dead: Set<u32>,
    redirect: Map<u32, u32>,
    n: int,
    m: int,
)
    requires
        a.wf(),
        0 <= m <= folds.len(),
        0 <= n <= a.nodes@.len(),
        first.nodes@.len() == a.nodes@.len(),
        folds_listed(a, dead, redirect, folds, a.nodes@.len() as int),
        swept(a, b, dead, redirect),
        forall|k: int| 0 <= k < m ==> (#[trigger] folds[k]).0 < n,
        forall|k: int| m <= k < folds.len() ==> (#[trigger] folds[k]).0 >= n,
        forall|i: int|
            0 <= i < a.nodes@.len() && first.nodes@[i].kind == NodeKind::Const ==> (
            #[trigger] a.nodes@[i]).kind == NodeKind::Const,
    ensures
        became_const(first, b, n) == became_const(first, a, n) + m,
    decreases n,
{
    if n == 0 {
        if m > 0 {
            assert(folds[0].0 < n);
        }
    } else {
        let i = n - 1;
        if fold_at(a, dead, redirect, i) is Some {
            let k = choose|k: int| 0 <= k < folds.len() && (#[trigger] folds[k]).0 == i;
            if k < m - 1 {
                assert(folds[k].0 < folds[m - 1].0);
            }
            assert(k == m - 1);
            assert forall|q: int| 0 <= q < m - 1 implies (#[trigger] folds[q]).0 < i by {
                assert(folds[q].0 < folds[m - 1].0);
            }
            assert(a.nodes@[i].kind != NodeKind::Const);
            assert(b.nodes@[i].kind == NodeKind::Const);
            lemma_folds_count_upto(first, a, b, folds, dead, redirect, n - 1, m - 1);
        } else {
            assert forall|q: int| 0 <= q < m implies (#[trigger] folds[q]).0 < i by {
                assert(fold_at(a, dead, redirect, folds[q].0 as int) is Some);
            }
            assert(b.nodes@[i] == a.nodes@[i]);
            lemma_folds_count_upto(first, a, b, folds, dead, redirect, n - 1, m);
        }
    }
}

/// Every node that may fold, with its constant inputs; an evaluator decides
/// what each of them folds to.
pub fn fold_candidates(graph: &DataFlowGraph, ctx: &OptimizerContext) -> (r: Vec<FoldCandidate>)
    requires
        graph.wf(),
        crate::ir::redirect::acyclic(ctx.redirect@),
    ensures
        forall|k: int|
            0 <= k < r@.len() ==> (#[trigger] r@[k]).idx < graph.nodes@.len() && all_inputs_const(
                graph,
                ctx.dead@,
                ctx.redirect@,
                r@[k].idx as int,
            ) && r@[k].compute_fn == graph.nodes@[r@[k].idx as int].compute_fn && r@[k].args@
                == input_consts(graph, ctx.redirect@, r@[k].idx as int),
        forall|k: int, l: int|
            0 <= k < l < r@.len() ==> (#[trigger] r@[k]).idx < (#[trigger] r@[l]).idx,
        forall|i: int|
            0 <= i < graph.nodes@.len() && #[trigger] all_inputs_const(
                graph,
                ctx.dead@,
                ctx.redirect@,
                i,
            ) ==> exists|k: int| 0 <= k < r@.len() && (#[trigger] r@[k]).idx == i,
{
    let wb_targets = collect_writeback_targets(graph);
    let mut r: Vec<FoldCandidate> = Vec::new();
    let mut i: usize = 0;
    while i < graph.nodes.len()
        invariant
            graph.wf(),
            crate::ir::redirect::acyclic(ctx.redirect@),
            forall|id: u32| #[trigger]
                wb_targets@.contains(id) <==> is_writeback_target(graph, id),
            i <= graph.nodes@.len(),
            forall|k: int|
                0 <= k < r@.len() ==> (#[trigger] r@[k]).idx < i && all_inputs_const(
                    graph,
                    ctx.dead@,
                    ctx.redirect@,
                    r@[k].idx as int,
                ) && r@[k].compute_fn == graph.nodes@[r@[k].idx as int].compute_fn && r@[k].args@
                    == input_consts(graph, ctx.redirect@, r@[k].idx as int),
            forall|k: int, l: int|
                0 <= k < l < r@.len() ==> (#[trigger] r@[k]).idx < (#[trigger] r@[l]).idx,
            forall|q: int|
                0 <= q < i && #[trigger] all_inputs_const(graph, ctx.dead@, ctx.redirect@, q)
                    ==> exists|k: int| 0 <= k < r@.len() && (#[trigger] r@[k]).idx == q,
        decreases graph.nodes@.len() - i,
    {
        let ghost was = r@;
        if let Some(args) = constant_args(graph, ctx, &wb_targets, i) {
            r.push(FoldCandidate { idx: i, compute_fn: graph.nodes[i].compute_fn, args });
        }
        assert forall|q: int| 0 <= q < i + 1 && #[trigger] all_inputs_const(
            graph,
            ctx.dead@,
            ctx.redirect@,
            q,
        ) implies exists|k: int| 0 <= k < r@.len() && (#[trigger] r@[k]).idx == q by {
            if q < i {
                let k = choose|k: int| 0 <= k < was.len() && (#[trigger] was[k]).idx == q;
                assert(r@[k].idx == q);
            } else {
                assert(r@[was.len() as int].idx == q);
            }
        }
        i = i + 1;
    }
    r
}

// ---- laws ------------------------------------------------------------------

/// Folding works in place: a sweep keeps every id, and touches nothing but
/// the node and the constant value of what folds.
pub proof fn law_folding_is_in_place(
    a: &DataFlowGraph,
    b: &DataFlowGraph,
    dead: Set<u32>,
    redirect: Map<u32, u32>,
    i: int,
)
    requires
        swept(a, b, dead, redirect),
        0 <= i < a.nodes@.len(),
    ensures
        b.nodes@.len() == a.nodes@.len(),
        b.subgraphs@ == a.subgraphs@,
        b.meta@[i] == (NodeMeta { const_value: b.meta@[i].const_value, ..a.meta@[i] }),
        fold_at(a, dead, redirect, i) is None ==> b.nodes@[i] == a.nodes@[i]
            && b.meta@[i].const_value == a.meta@[i].const_value,
{
    assert(b.nodes@[i] == b.nodes@[i]);
}

/// A node that a sweep makes a constant was retained and had no side effect,
/// and each of its inputs stood for a constant that nothing writes back to; the
/// node's value is what its compute function gives on the values of its inputs,
/// in their order. Returns those values.
pub proof fn law_folding_evaluates_the_inputs(
    a: &DataFlowGraph,
    b: &DataFlowGraph,
    dead: Set<u32>,
    redirect: Map<u32, u32>,
    i: int,
) -> (args: Seq<ConstValue>)
    requires
        swept(a, b, dead, redirect),
        0 <= i < a.nodes@.len(),
        a.nodes@[i].kind != NodeKind::Const,
        b.nodes@[i].kind == NodeKind::Const,
    ensures
        !dead.contains(i as u32) && !redirect.contains_key(i as u32),
        a.meta@[i].writeback_target is None && a.meta@[i].field_set_name is None,
        a.meta@[i].global_store_slot is None && a.meta@[i].ffi_call_name is None && !a.meta@[i].tail_call,
        args.len() == a.inputs_of(i).len(),
        forall|j: int| #![trigger args[j]]
            0 <= j < args.len() ==> {
                let r = resolved(redirect, a.inputs_of(i)[j].0);
                &&& r < a.meta@.len() && a.meta@[r as int].const_value == Some(args[j])
                &&& forall|k: int|
                    0 <= k < a.meta@.len() ==> (#[trigger] a.meta@[k]).writeback_target != Some(NodeId(r))
            },
        b.meta@[i].const_value == folded(a.nodes@[i].compute_fn.0, args),
        b.inputs_of(i).len() == 0,
{
    let args = input_consts(a, redirect, i);
    assert(b.nodes@[i] == b.nodes@[i]);
    assert forall|j: int| #![trigger args[j]] 0 <= j < args.len() implies {
        let r = resolved(redirect, a.inputs_of(i)[j].0);
        &&& r < a.meta@.len() && a.meta@[r as int].const_value == Some(args[j])
        &&& forall|k: int| 0 <= k < a.meta@.len() ==> (#[trigger] a.meta@[k]).writeback_target != Some(NodeId(r))
    } by {
        assert(a.inputs_of(i)[j] == a.inputs_of(i)[j]);
        assert(const_input(a, redirect, i, j));
    }
    args
}

/// A node whose inputs all stand for constants that nothing writes back to is
/// made a constant where its compute function has a value on them, unless it
/// has a side effect.
pub proof fn law_constant_inputs_fold(
    a: &DataFlowGraph,
    b: &DataFlowGraph,
    dead: Set<u32>,
    redirect: Map<u32, u32>,
    i: int,
    args: Seq<ConstValue>,
)
    requires
        swept(a, b, dead, redirect),
        0 <= i < a.nodes@.len(),
        a.nodes@[i].kind != NodeKind::Const,
        !dead.contains(i as u32),
        !redirect.contains_key(i as u32),
        !side_effect(a, i),
        args.len() == a.inputs_of(i).len() > 0,
        forall|j: int| #![trigger args[j]]
            0 <= j < args.len() ==> {
                let r = resolved(redirect, a.inputs_of(i)[j].0);
                &&& r < a.meta@.len() && a.meta@[r as int].const_value == Some(args[j])
                &&& forall|k: int|
                    0 <= k < a.meta@.len() ==> (#[trigger] a.meta@[k]).writeback_target != Some(NodeId(r))
            },
        folded(a.nodes@[i].compute_fn.0, args) is Some,
    ensures
        b.nodes@[i].kind == NodeKind::Const,
        b.meta@[i].const_value == folded(a.nodes@[i].compute_fn.0, args),
{
    assert forall|j: int| #![trigger a.inputs_of(i)[j]] 0 <= j < a.inputs_of(i).len() implies const_input(
        a,
        redirect,
        i,
        j,
    ) by {
        let r = resolved(redirect, a.inputs_of(i)[j].0);
        assert(a.meta@[r as int].const_value == Some(args[j]));
        if is_writeback_target(a, r) {
            let k = choose|k: int|
                0 <= k < a.meta@.len() && (#[trigger] a.meta@[k]).writeback_target == Some(NodeId(r));
            assert(a.meta@[k].writeback_target != Some(NodeId(r)));
        }
    }
    assert(input_consts(a, redirect, i) =~= args) by {
        assert forall|j: int| 0 <= j < args.len() implies input_consts(a, redirect, i)[j] == args[j] by {
            let r = resolved(redirect, a.inputs_of(i)[j].0);
            assert(a.meta@[r as int].const_value == Some(args[j]));
        }
    }
    assert(b.nodes@[i] == b.nodes@[i]);
}

} // verus!
