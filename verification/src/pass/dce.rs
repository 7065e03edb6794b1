//! Dead code elimination, of nodes and of whole functions.

use vstd::prelude::*;

use crate::fx::IdSet;
use crate::ir::compute_fns::{is_launch_kind, launches};
use crate::ir::graph::DataFlowGraph;
use crate::ir::layout::stays;
use crate::ir::meta::NO_OWNER;
use crate::ir::redirect::{acyclic, lemma_resolved_below, lemma_resolved_is_final, resolved};
use crate::ir::refs::{all_below, meta_refs, sg_refs};
use crate::ir::reset_plan::{lemma_unvisited, unvisited};
use crate::ir::types::{NodeId, NodeKind};
use crate::pass::context::OptimizerContext;
use crate::pass::liveness::{
    compute_live_nodes, compute_liveness, law_seeds_are_live, live_nodes, live_seed, live_walkable, reachable_funcs,
    sg_refs_valid, uses, walkable,
};

verus! {

/// Whether the node is a pure computation that may be deleted: neither a
/// launch nor a constant, and its compute function is pure.
pub open spec fn is_pure_calc(g: &DataFlowGraph, pure_set: Set<u32>, i: int) -> bool {
    &&& !launches(g.nodes@[i].kind)
    &&& g.nodes@[i].kind != NodeKind::Const
    &&& pure_set.contains(g.nodes@[i].compute_fn.0)
}

/// The nodes that are taken for dead at first: those dead already, and the
/// retained pure computations that are not live.
pub open spec fn dead_candidates(
    g: &DataFlowGraph,
    dead: Set<u32>,
    redirect: Map<u32, u32>,
    pure_set: Set<u32>,
) -> Set<u32> {
    Set::new(
        |i: u32|
            dead.contains(i) || (i < g.nodes@.len() && !live_nodes(g, redirect).contains(i)
                && stays(dead, redirect, i as int) && is_pure_calc(g, pure_set, i as int)),
    )
}

/// A set of candidates that must be rescued: whatever a retained or rescued
/// node uses.
pub open spec fn rescue_closed(
    g: &DataFlowGraph,
    redirect: Map<u32, u32>,
    cand: Set<u32>,
    s: Set<u32>,
) -> bool {
    forall|n: u32, id: NodeId|
        n < g.nodes@.len() && !redirect.contains_key(n) && (!cand.contains(n) || s.contains(n))
            && #[trigger] uses(g, n as int, id) && cand.contains(resolved(redirect, id.0))
            ==> s.contains(resolved(redirect, id.0))
}

/// The rescued candidates: those in every such set.
pub open spec fn rescued(g: &DataFlowGraph, redirect: Map<u32, u32>, cand: Set<u32>) -> Set<u32> {
    Set::new(
        |i: u32|
            cand.contains(i) && forall|s: Set<u32>| #[trigger]
                rescue_closed(g, redirect, cand, s) ==> s.contains(i),
    )
}

/// The dead nodes after the pass: the candidates that are not rescued, and
/// every redirected node that stands for one of them.
pub open spec fn dce_dead(
    g: &DataFlowGraph,
    dead: Set<u32>,
    redirect: Map<u32, u32>,
    pure_set: Set<u32>,
) -> Set<u32> {
    let cand = dead_candidates(g, dead, redirect, pure_set);
    let gone = cand.difference(rescued(g, redirect, cand));
    Set::new(
        |i: u32|
            gone.contains(i) || (redirect.contains_key(i) && gone.contains(resolved(redirect, i))),
    )
}

/// Appends what a node uses, redirects followed: its inputs, then the
/// references in its metadata.
pub fn collect_refs(
    graph: &DataFlowGraph,
    ctx: &OptimizerContext,
    idx: usize,
    out: &mut Vec<NodeId>,
)
    requires
        graph.wf(),
        acyclic(ctx.redirect@),
        idx < graph.nodes@.len(),
    ensures
        ({
            let all = graph.inputs_of(idx as int) + meta_refs(graph.meta@[idx as int]);
            final(out)@ == old(out)@ + Seq::new(
                all.len(),
                |k: int| NodeId(resolved(ctx.redirect@, all[k].0)),
            )
        }),
{
    let ghost all = graph.inputs_of(idx as int) + meta_refs(graph.meta@[idx as int]);
    let mut raw: Vec<NodeId> = Vec::new();
    let inputs = graph.inputs(idx);
    let mut a: usize = 0;
    while a < inputs.len()
        invariant
            a <= inputs@.len(),
            raw@ == inputs@.take(a as int),
        decreases inputs@.len() - a,
    {
        raw.push(inputs[a]);
        assert(raw@ =~= inputs@.take(a + 1));
        a = a + 1;
    }
    graph.node_meta_refs(idx, &mut raw);
    assert(raw@ =~= all);
    let ghost image = Seq::new(all.len(), |k: int| NodeId(resolved(ctx.redirect@, all[k].0)));
    let mut b: usize = 0;
    while b < raw.len()
        invariant
            acyclic(ctx.redirect@),
            raw@ == all,
            image == Seq::new(all.len(), |k: int| NodeId(resolved(ctx.redirect@, all[k].0))),
            b <= raw@.len(),
            out@ == old(out)@ + image.take(b as int),
        decreases raw@.len() - b,
    {
        let r = ctx.resolve(raw[b]);
        out.push(r);
        assert(out@ =~= old(out)@ + image.take(b + 1));
        b = b + 1;
    }
    assert(image.take(image.len() as int) =~= image);
}

/// Everything rescued so far must be rescued.
spec fn rescues_sound(
    g: &DataFlowGraph,
    redirect: Map<u32, u32>,
    cand: Set<u32>,
    now: Set<u32>,
) -> bool {
    &&& now.subset_of(cand)
    &&& forall|s: Set<u32>, i: u32| #[trigger]
        rescue_closed(g, redirect, cand, s) && cand.contains(i) && !#[trigger] now.contains(i)
            ==> s.contains(i)
}

/// Nothing that the node uses is still taken for dead.
spec fn settled(g: &DataFlowGraph, redirect: Map<u32, u32>, now: Set<u32>, n: u32) -> bool {
    forall|id: NodeId| #[trigger]
        uses(g, n as int, id) ==> !now.contains(resolved(redirect, id.0))
}

/// Rescues what node `n` uses. `now` is what is still taken for dead.
fn rescue_uses(
    graph: &DataFlowGraph,
    ctx: &mut OptimizerContext,
    n: u32,
    Ghost(cand): Ghost<Set<u32>>,
    stack: &mut Vec<u32>,
)
    requires
        graph.wf(),
        acyclic(old(ctx).redirect@),
        forall|x: u32| #[trigger] old(ctx).dead@.contains(x) ==> x < graph.nodes@.len(),
        n < graph.nodes@.len(),
        !old(ctx).redirect@.contains_key(n),
        !old(ctx).dead@.contains(n),
        rescues_sound(graph, old(ctx).redirect@, cand, old(ctx).dead@),
    ensures
        *final(ctx) == (OptimizerContext { dead: final(ctx).dead, ..*old(ctx) }),
        final(ctx).dead@.subset_of(old(ctx).dead@),
        rescues_sound(graph, final(ctx).redirect@, cand, final(ctx).dead@),
        settled(graph, final(ctx).redirect@, final(ctx).dead@, n),
        forall|x: u32| #[trigger]
            final(stack)@.contains(x) <==> old(stack)@.contains(x) || (old(ctx).dead@.contains(x)
                && !final(ctx).dead@.contains(x)),
        forall|x: u32| #[trigger]
            old(ctx).dead@.contains(x) && !final(ctx).dead@.contains(x) ==> x < graph.nodes@.len()
                && !old(ctx).redirect@.contains_key(x),
        final(ctx).dead@ == old(ctx).dead@ && final(stack)@ == old(stack)@ || unvisited(
            final(ctx).dead@.complement(),
        ).len() < unvisited(old(ctx).dead@.complement()).len(),
{
    let ghost red = ctx.redirect@;
    let ghost all = graph.inputs_of(n as int) + meta_refs(graph.meta@[n as int]);
    let mut refs: Vec<NodeId> = Vec::new();
    collect_refs(graph, ctx, n as usize, &mut refs);
    let ghost image = Seq::new(all.len(), |k: int| NodeId(resolved(red, all[k].0)));
    assert(refs@ =~= image);
    proof {
        lemma_uses_listed(graph, n as int, all);
    }
    let mut k: usize = 0;
    while k < refs.len()
        invariant
            graph.wf(),
            acyclic(red),
            forall|x: u32| #[trigger] old(ctx).dead@.contains(x) ==> x < graph.nodes@.len(),
            n < graph.nodes@.len(),
            red == ctx.redirect@,
            !red.contains_key(n),
            *ctx == (OptimizerContext { dead: ctx.dead, ..*old(ctx) }),
            refs@ == image,
            image == Seq::new(all.len(), |k: int| NodeId(resolved(red, all[k].0))),
            forall|id: NodeId| #[trigger] uses(graph, n as int, id) <==> all.contains(id),
            !ctx.dead@.contains(n),
            !cand.contains(n) || !old(ctx).dead@.contains(n),
            ctx.dead@.subset_of(old(ctx).dead@),
            rescues_sound(graph, red, cand, old(ctx).dead@),
            rescues_sound(graph, red, cand, ctx.dead@),
            k <= refs@.len(),
            forall|j: int| 0 <= j < k ==> !ctx.dead@.contains((#[trigger] refs@[j]).0),
            forall|x: u32| #[trigger]
                stack@.contains(x) <==> old(stack)@.contains(x) || (old(ctx).dead@.contains(x)
                    && !ctx.dead@.contains(x)),
            forall|x: u32| #[trigger]
                old(ctx).dead@.contains(x) && !ctx.dead@.contains(x) ==> x < graph.nodes@.len()
                    && !red.contains_key(x),
            ctx.dead@ == old(ctx).dead@ && stack@ == old(stack)@ || unvisited(
                ctx.dead@.complement(),
            ).len() < unvisited(old(ctx).dead@.complement()).len(),
        decreases refs@.len() - k,
    {
        let r = refs[k].0;
        let ghost before = ctx.dead@;
        let ghost stack0 = stack@;
        proof {
            assert(all.contains(all[k as int]));
            assert(uses(graph, n as int, all[k as int]));
            lemma_resolved_is_final(red, all[k as int].0);
            if before.contains(r) {
                lemma_unvisited(before.complement(), r);
                assert(before.remove(r).complement() =~= before.complement().insert(r));
            } else {
                assert(before.remove(r) =~= before);
            }
        }
        if ctx.dead.remove(r) {
            stack.push(r);
            proof {
                assert forall|s: Set<u32>, i: u32| #[trigger]
                    rescue_closed(graph, red, cand, s) && cand.contains(i)
                        && !#[trigger] ctx.dead@.contains(i) implies s.contains(i) by {
                    if before.contains(i) {
                        assert(i == r);
                        if cand.contains(n) {
                            assert(!old(ctx).dead@.contains(n));
                            assert(s.contains(n));
                        }
                    }
                }
                assert forall|x: u32| #[trigger]
                    stack@.contains(x) <==> old(stack)@.contains(x) || (old(ctx).dead@.contains(x)
                        && !ctx.dead@.contains(x)) by {
                    lemma_push_has(stack0, r, x);
                }
            }
        }
        k = k + 1;
    }
    proof {
        assert forall|id: NodeId| #[trigger] uses(graph, n as int, id) implies !ctx.dead@.contains(
            resolved(red, id.0),
        ) by {
            let j = choose|j: int| 0 <= j < all.len() && all[j] == id;
            assert(refs@[j].0 == resolved(red, id.0));
        }
    }
}

proof fn lemma_push_has(s: Seq<u32>, v: u32, x: u32)
    ensures
        s.push(v).contains(x) <==> s.contains(x) || x == v,
{
    let t = s.push(v);
    assert(t[s.len() as int] == v);
    if s.contains(x) {
        let k = choose|k: int| 0 <= k < s.len() && s[k] == x;
        assert(t[k] == x);
    }
    if t.contains(x) {
        let k = choose|k: int| 0 <= k < t.len() && t[k] == x;
        if k < s.len() {
            assert(s[k] == x);
        }
    }
}

proof fn lemma_uses_listed(g: &DataFlowGraph, n: int, all: Seq<NodeId>)
    requires
        all == g.inputs_of(n) + meta_refs(g.meta@[n]),
    ensures
        forall|id: NodeId| #[trigger] uses(g, n, id) <==> all.contains(id),
{
    let a = g.inputs_of(n);
    let b = meta_refs(g.meta@[n]);
    assert forall|id: NodeId| #[trigger] uses(g, n, id) <==> all.contains(id) by {
        if a.contains(id) {
            let k = choose|k: int| 0 <= k < a.len() && a[k] == id;
            assert(all[k] == id);
        }
        if b.contains(id) {
            let k = choose|k: int| 0 <= k < b.len() && b[k] == id;
            assert(all[a.len() + k] == id);
        }
        if all.contains(id) {
            let k = choose|k: int| 0 <= k < all.len() && all[k] == id;
            if k < a.len() {
                assert(a[k] == id);
            } else {
                assert(b[k - a.len()] == id);
            }
        }
    }
}

/// Marks unreachable pure computations as dead, then takes back whatever a
/// retained node uses, and marks redirected nodes whose target is dead.
pub fn pass_dce(graph: &DataFlowGraph, ctx: &mut OptimizerContext, pure_set: &IdSet)
    requires
        live_walkable(graph, old(ctx).redirect@),
        old(ctx).wf(graph.nodes@.len() as int),
        forall|x: u32| #[trigger] old(ctx).dead@.contains(x) ==> x < graph.nodes@.len(),
    ensures
        *final(ctx) == (OptimizerContext { dead: final(ctx).dead, ..*old(ctx) }),
        final(ctx).dead@ == dce_dead(
            graph,
            old(ctx).dead@,
            old(ctx).redirect@,
            pure_set@,
        ),
{
    let ghost dead0 = ctx.dead@;
    let ghost red = ctx.redirect@;
    let ghost cand = dead_candidates(graph, dead0, red, pure_set@);
    let n = graph.nodes.len();
    let live = compute_live_nodes(graph, ctx);
    let mut i: usize = 0;
    while i < n
        invariant
            graph.wf(),
            n == graph.nodes@.len(),
            i <= n,
            red == ctx.redirect@,
            dead0 == old(ctx).dead@,
            *ctx == (OptimizerContext { dead: ctx.dead, ..*old(ctx) }),
            live@ == live_nodes(graph, red),
            cand == dead_candidates(graph, dead0, red, pure_set@),
            forall|x: u32| #[trigger]
                ctx.dead@.contains(x) <==> dead0.contains(x) || (x < i && cand.contains(x)),
        decreases n - i,
    {
        let id = NodeId(i as u32);
        if !live.contains(id.0) && ctx.is_live(id) {
            let node = graph.nodes[i];
            if !is_launch_kind(node.kind) && node.kind != NodeKind::Const && pure_set.contains(
                node.compute_fn.0,
            ) {
                assert(cand.contains(id.0));
                ctx.dead.insert(id.0);
            } else {
                assert(!cand.contains(id.0));
            }
        } else {
            assert(cand.contains(id.0) ==> dead0.contains(id.0));
        }
        i = i + 1;
    }
    assert(ctx.dead@ =~= cand);
    let mut stack: Vec<u32> = Vec::new();
    let mut j: usize = 0;
    while j < n
        invariant
            graph.wf(),
            n == graph.nodes@.len(),
            forall|x: u32| #[trigger] cand.contains(x) ==> x < n,
            ctx.wf(n as int),
            j <= n,
            red == ctx.redirect@,
            *ctx == (OptimizerContext { dead: ctx.dead, ..*old(ctx) }),
            rescues_sound(graph, red, cand, ctx.dead@),
            forall|x: u32| #[trigger]
                stack@.contains(x) ==> x < n && !ctx.dead@.contains(x) && !red.contains_key(x),
            forall|x: u32|
                x < n && !red.contains_key(x) && !(#[trigger] ctx.dead@.contains(x))
                    ==> stack@.contains(x) || (x >= j && !cand.contains(x)) || settled(
                    graph,
                    red,
                    ctx.dead@,
                    x,
                ),
        decreases n - j,
    {
        if !ctx.dead.contains(j as u32) && !ctx.redirect.contains_key(j as u32) {
            let ghost before = ctx.dead@;
            let ghost stack0 = stack@;
            rescue_uses(graph, ctx, j as u32, Ghost(cand), &mut stack);
            proof {
                lemma_settled_after(graph, red, before, ctx.dead@);
                assert forall|x: u32|
                    x < n && !red.contains_key(x) && !(#[trigger] ctx.dead@.contains(x)) implies stack@.contains(
                x) || (x >= j + 1 && !cand.contains(x)) || settled(graph, red, ctx.dead@, x) by {
                    if !before.contains(x) && x != j {
                        if stack0.contains(x) {
                            assert(stack@.contains(x));
                        }
                    }
                }
                assert forall|x: u32| #[trigger] stack@.contains(x) implies x < n
                    && !ctx.dead@.contains(x) && !red.contains_key(x) by {
                    if stack0.contains(x) {
                    }
                }
            }
        }
        j = j + 1;
    }
    while stack.len() > 0
        invariant
            graph.wf(),
            n == graph.nodes@.len(),
            forall|x: u32| #[trigger] cand.contains(x) ==> x < n,
            ctx.wf(n as int),
            red == ctx.redirect@,
            *ctx == (OptimizerContext { dead: ctx.dead, ..*old(ctx) }),
            rescues_sound(graph, red, cand, ctx.dead@),
            forall|x: u32| #[trigger]
                stack@.contains(x) ==> x < n && !ctx.dead@.contains(x) && !red.contains_key(x),
            forall|x: u32|
                x < n && !red.contains_key(x) && !(#[trigger] ctx.dead@.contains(x))
                    ==> stack@.contains(x) || settled(graph, red, ctx.dead@, x),
        decreases unvisited(ctx.dead@.complement()).len(), stack@.len(),
    {
        let ghost full = stack@;
        let x0 = stack.pop().unwrap();
        let ghost rest = stack@;
        let ghost before = ctx.dead@;
        proof {
            assert(full =~= rest.push(x0));
            assert(full[full.len() - 1] == x0);
            assert(full.contains(x0));
            assert forall|x: u32| rest.contains(x) implies #[trigger] full.contains(x) by {
                lemma_push_has(rest, x0, x);
            }
        }
        rescue_uses(graph, ctx, x0, Ghost(cand), &mut stack);
        proof {
            lemma_settled_after(graph, red, before, ctx.dead@);
            assert forall|x: u32|
                x < n && !red.contains_key(x) && !(#[trigger] ctx.dead@.contains(x)) implies stack@.contains(
            x) || settled(graph, red, ctx.dead@, x) by {
                if !before.contains(x) && x != x0 {
                    lemma_push_has(rest, x0, x);
                    if full.contains(x) {
                        assert(stack@.contains(x));
                    }
                }
            }
            assert forall|x: u32| #[trigger] stack@.contains(x) implies x < n && !ctx.dead@.contains(
                x,
            ) && !red.contains_key(x) by {
                if rest.contains(x) {
                    assert(full.contains(x));
                }
            }
        }
    }
    let ghost gone = ctx.dead@;
    proof {
        let saved = cand.difference(gone);
        assert(rescue_closed(graph, red, cand, saved)) by {
            assert forall|m: u32, id: NodeId|
                m < n && !red.contains_key(m) && (!cand.contains(m) || saved.contains(m))
                    && #[trigger] uses(graph, m as int, id) && cand.contains(
                    resolved(red, id.0),
                ) implies saved.contains(resolved(red, id.0)) by {
                assert(!gone.contains(m));
                assert(settled(graph, red, gone, m));
            }
        }
        assert(gone =~= cand.difference(rescued(graph, red, cand)));
    }
    let mut k: usize = 0;
    while k < n
        invariant
            n == graph.nodes@.len() <= u32::MAX,
            ctx.wf(n as int),
            k <= n,
            red == ctx.redirect@,
            *ctx == (OptimizerContext { dead: ctx.dead, ..*old(ctx) }),
            forall|x: u32| #[trigger]
                ctx.dead@.contains(x) <==> gone.contains(x) || (x < k && red.contains_key(x)
                    && gone.contains(resolved(red, x))),
        decreases n - k,
    {
        let key = k as u32;
        if ctx.redirect.contains_key(key) && !ctx.dead.contains(key) {
            let target = ctx.resolve(NodeId(key));
            if ctx.dead.contains(target.0) {
                ctx.dead.insert(key);
            }
        }
        k = k + 1;
    }
    assert(ctx.dead@ =~= dce_dead(graph, dead0, red, pure_set@));
}

proof fn lemma_settled_after(g: &DataFlowGraph, redirect: Map<u32, u32>, a: Set<u32>, b: Set<u32>)
    requires
        b.subset_of(a),
    ensures
        forall|x: u32| settled(g, redirect, a, x) ==> #[trigger] settled(g, redirect, b, x),
{
    assert forall|x: u32| settled(g, redirect, a, x) implies #[trigger] settled(
        g,
        redirect,
        b,
        x,
    ) by {
        assert forall|id: NodeId| #[trigger] uses(g, x as int, id) implies !b.contains(
            resolved(redirect, id.0),
        ) by {
            assert(!a.contains(resolved(redirect, id.0)));
        }
    }
}

// ---- whole functions -------------------------------------------------------

/// Whether the node belongs to a function that cannot be reached.
pub open spec fn in_dead_function(
    g: &DataFlowGraph,
    dead: Set<u32>,
    redirect: Map<u32, u32>,
    i: int,
) -> bool {
    g.owner_of(i) != NO_OWNER && !reachable_funcs(g, dead, redirect).contains(g.owner_of(i))
        && stays(dead, redirect, i)
}

/// Whether function elimination finds anything to kill.
pub open spec fn kills_any(g: &DataFlowGraph, dead: Set<u32>, redirect: Map<u32, u32>) -> bool {
    g.entry_subgraph is Some && exists|i: int|
        0 <= i < g.nodes@.len() && #[trigger] in_dead_function(g, dead, redirect, i)
}

/// The dead nodes after unreachable functions are killed.
pub open spec fn func_dce_dead(g: &DataFlowGraph, dead: Set<u32>, redirect: Map<u32, u32>) -> Set<
    u32,
> {
    if g.entry_subgraph is None {
        dead
    } else {
        Set::new(
            |i: u32|
                dead.contains(i) || (i < g.nodes@.len() && in_dead_function(
                    g,
                    dead,
                    redirect,
                    i as int,
                )),
        )
    }
}

/// The dead subgraphs after unreachable functions are killed: with a killed
/// node, every subgraph of an unreachable function.
pub open spec fn func_dce_dead_sgs(
    g: &DataFlowGraph,
    dead: Set<u32>,
    redirect: Map<u32, u32>,
    dead_sgs: Set<u32>,
) -> Set<u32> {
    if kills_any(g, dead, redirect) {
        Set::new(
            |s: u32|
                dead_sgs.contains(s) || exists|k: int|
                    0 <= k < g.subgraphs@.len() && (#[trigger] g.subgraphs@[k]).id.0 == s
                        && !reachable_funcs(g, dead, redirect).contains(
                        g.subgraphs@[k].function_id,
                    ),
        )
    } else {
        dead_sgs
    }
}

/// Kills the functions that are unreachable from the entry: all their nodes
/// and all their subgraphs.
pub fn pass_func_dce(graph: &DataFlowGraph, ctx: &mut OptimizerContext)
    requires
        graph.entry_subgraph is Some ==> live_walkable(graph, old(ctx).redirect@),
        graph.nodes@.len() <= u32::MAX,
        acyclic(old(ctx).redirect@),
        graph.entry_subgraph is Some ==> sg_refs_valid(graph, old(ctx).dead@, old(ctx).redirect@),
    ensures
        final(ctx).dead@ == func_dce_dead(graph, old(ctx).dead@, old(ctx).redirect@),
        final(ctx).dead_sgs@ == func_dce_dead_sgs(
            graph,
            old(ctx).dead@,
            old(ctx).redirect@,
            old(ctx).dead_sgs@,
        ),
        *final(ctx) == (OptimizerContext {
            dead: final(ctx).dead,
            dead_sgs: final(ctx).dead_sgs,
            mutated: old(ctx).mutated || kills_any(graph, old(ctx).dead@, old(ctx).redirect@),
            ..*old(ctx)
        }),
{
    if graph.entry_subgraph.is_none() {
        return;
    }
    let ghost dead0 = ctx.dead@;
    let ghost red = ctx.redirect@;
    let liv = compute_liveness(graph, ctx);
    let mut killed = false;
    let mut i: usize = 0;
    while i < graph.nodes.len()
        invariant
            graph.nodes@.len() <= u32::MAX,
            graph.entry_subgraph is Some,
            i <= graph.nodes@.len(),
            dead0 == old(ctx).dead@,
            red == ctx.redirect@,
            *ctx == (OptimizerContext { dead: ctx.dead, ..*old(ctx) }),
            liv.funcs@ == reachable_funcs(graph, dead0, red),
            liv.node_owner@.len() == graph.nodes@.len(),
            forall|i: int|
                0 <= i < graph.nodes@.len() ==> #[trigger] liv.node_owner@[i] == graph.owner_of(i),
            forall|x: u32| #[trigger]
                ctx.dead@.contains(x) <==> dead0.contains(x) || (x < i && in_dead_function(
                    graph,
                    dead0,
                    red,
                    x as int,
                )),
            killed <==> exists|k: int| 0 <= k < i && #[trigger] in_dead_function(
                graph,
                dead0,
                red,
                k,
            ),
        decreases graph.nodes@.len() - i,
    {
        let owner = liv.node_owner[i];
        let id = NodeId(i as u32);
        if owner != NO_OWNER && !liv.funcs.contains(owner) && ctx.is_live(id) {
            assert(in_dead_function(graph, dead0, red, i as int));
            ctx.dead.insert(id.0);
            killed = true;
        } else {
            assert(!in_dead_function(graph, dead0, red, i as int));
        }
        i = i + 1;
    }
    assert(ctx.dead@ =~= func_dce_dead(graph, dead0, red));
    if killed {
        let ghost sgs0 = ctx.dead_sgs@;
        let mut s: usize = 0;
        while s < graph.subgraphs.len()
            invariant
                s <= graph.subgraphs@.len(),
                *ctx == (OptimizerContext { dead: ctx.dead, dead_sgs: ctx.dead_sgs, ..*old(ctx) }),
                ctx.dead@ == func_dce_dead(graph, dead0, red),
                liv.funcs@ == reachable_funcs(graph, dead0, red),
                forall|x: u32| #[trigger]
                    ctx.dead_sgs@.contains(x) <==> sgs0.contains(x) || exists|k: int|
                        0 <= k < s && (#[trigger] graph.subgraphs@[k]).id.0 == x
                            && !liv.funcs@.contains(graph.subgraphs@[k].function_id),
            decreases graph.subgraphs@.len() - s,
        {
            let ghost was = ctx.dead_sgs@;
            if !liv.funcs.contains(graph.subgraphs[s].function_id) {
                ctx.dead_sgs.insert(graph.subgraphs[s].id.0);
            }
            assert forall|x: u32| #[trigger] ctx.dead_sgs@.contains(x) <==> sgs0.contains(x)
                || exists|k: int|
                0 <= k < s + 1 && (#[trigger] graph.subgraphs@[k]).id.0 == x
                    && !liv.funcs@.contains(graph.subgraphs@[k].function_id) by {
                if was.contains(x) && !sgs0.contains(x) {
                    let k = choose|k: int|
                        0 <= k < s && (#[trigger] graph.subgraphs@[k]).id.0 == x
                            && !liv.funcs@.contains(graph.subgraphs@[k].function_id);
                    assert(0 <= k < s + 1);
                }
                if ctx.dead_sgs@.contains(x) && !was.contains(x) {
                    assert(graph.subgraphs@[s as int].id.0 == x);
                }
            }
            s = s + 1;
        }
        ctx.mutated = true;
        assert(ctx.dead_sgs@ =~= func_dce_dead_sgs(graph, dead0, red, sgs0));
    }
}

// ---- laws ------------------------------------------------------------------

/// After the pass nothing that a retained node uses is dead: compaction finds
/// every input and every reference of what stays.
pub proof fn law_dce_keeps_what_is_used(
    g: &DataFlowGraph,
    dead: Set<u32>,
    redirect: Map<u32, u32>,
    pure_set: Set<u32>,
    n: u32,
    id: NodeId,
)
    requires
        acyclic(redirect),
        n < g.nodes@.len(),
        stays(dce_dead(g, dead, redirect, pure_set), redirect, n as int),
        uses(g, n as int, id),
    ensures
        !dce_dead(g, dead, redirect, pure_set).contains(resolved(redirect, id.0)),
{
    let cand = dead_candidates(g, dead, redirect, pure_set);
    let r = resolved(redirect, id.0);
    lemma_resolved_is_final(redirect, id.0);
    if cand.contains(r) {
        assert forall|s: Set<u32>| #[trigger] rescue_closed(g, redirect, cand, s) implies s.contains(
        r) by {
            if cand.contains(n) {
                assert(rescued(g, redirect, cand).contains(n));
                assert(s.contains(n));
            }
        }
    }
}

/// A node that the pass newly takes for dead is a pure computation that is
/// not live, or is redirected to a dead node.
pub proof fn law_dce_kills_only_pure(
    g: &DataFlowGraph,
    dead: Set<u32>,
    redirect: Map<u32, u32>,
    pure_set: Set<u32>,
    i: u32,
)
    requires
        dce_dead(g, dead, redirect, pure_set).contains(i),
        !dead.contains(i),
        !redirect.contains_key(i),
    ensures
        i < g.nodes@.len(),
        !live_nodes(g, redirect).contains(i),
        is_pure_calc(g, pure_set, i as int),
{
}


/// A graph can always be compacted after the pass, whatever was merged before
/// it: nothing that stays refers to anything that goes. Only the subgraph ids
/// that stay have to be places, and the inputs of what stays to fit the pool.
pub proof fn law_dce_leaves_a_compactable_graph(
    g: &DataFlowGraph,
    redirect: Map<u32, u32>,
    pure_set: Set<u32>,
    dead_sgs: Set<u32>,
)
    requires
        walkable(g),
        g.function_ids_wf(),
        acyclic(redirect),
        forall|k: u32| #[trigger]
            redirect.contains_key(k) ==> k < g.nodes@.len() && redirect[k] < g.nodes@.len(),
        g.sg_refs_placed(dce_dead(g, Set::empty(), redirect, pure_set), redirect, dead_sgs),
        ({
            let layout = g.layout(dce_dead(g, Set::empty(), redirect, pure_set), redirect);
            g.input_sum(layout, layout.len() as int) <= u32::MAX
        }),
    ensures
        g.rebuildable(dce_dead(g, Set::empty(), redirect, pure_set), redirect, dead_sgs),
{
    let dead = dce_dead(g, Set::empty(), redirect, pure_set);
    let n = g.nodes@.len() as int;
    assert forall|id: NodeId| id.0 < n implies resolved(redirect, id.0) < n && !redirect.contains_key(
        #[trigger] resolved(redirect, id.0),
    ) by {
        lemma_resolved_below(redirect, id.0, g.nodes@.len() as int);
        lemma_resolved_is_final(redirect, id.0);
    }
    assert forall|i: int| #![trigger g.nodes@[i]] 0 <= i < n && stays(dead, redirect, i) implies g.all_land(
        dead,
        redirect,
        g.inputs_of(i),
    ) by {
        assert forall|k: int| 0 <= k < g.inputs_of(i).len() implies g.lands(
            dead,
            redirect,
            #[trigger] g.inputs_of(i)[k],
        ) by {
            let id = g.inputs_of(i)[k];
            assert(g.inputs_of(i).contains(id));
            assert(uses(g, i, id));
            law_dce_keeps_what_is_used(g, Set::empty(), redirect, pure_set, i as u32, id);
        }
    }
    assert forall|i: int| #![trigger g.meta@[i]] 0 <= i < n && stays(dead, redirect, i) implies g.all_land(
        dead,
        redirect,
        meta_refs(g.meta@[i]),
    ) by {
        assert(all_below(meta_refs(g.meta@[i]), n));
        assert forall|k: int| 0 <= k < meta_refs(g.meta@[i]).len() implies g.lands(
            dead,
            redirect,
            #[trigger] meta_refs(g.meta@[i])[k],
        ) by {
            let id = meta_refs(g.meta@[i])[k];
            assert(meta_refs(g.meta@[i]).contains(id));
            assert(uses(g, i, id));
            law_dce_keeps_what_is_used(g, Set::empty(), redirect, pure_set, i as u32, id);
        }
    }
    assert forall|s: int| #![trigger g.subgraphs@[s]]
        0 <= s < g.subgraphs@.len() && !g.dropped(dead, redirect, dead_sgs)[s] implies g.all_land(
        dead,
        redirect,
        sg_refs(g.subgraphs@[s]),
    ) by {
        assert(all_below(sg_refs(g.subgraphs@[s]), n));
        assert forall|k: int| 0 <= k < sg_refs(g.subgraphs@[s]).len() implies g.lands(
            dead,
            redirect,
            #[trigger] sg_refs(g.subgraphs@[s])[k],
        ) by {
            let id = sg_refs(g.subgraphs@[s])[k];
            assert(sg_refs(g.subgraphs@[s]).contains(id));
            assert(live_seed(g, id));
            law_seeds_are_live(g, redirect, id);
        }
    }
}

/// Nothing that acts is deleted: a node that the pass newly takes for dead is
/// neither a constant nor a gate, call, await or event source, has a compute
/// function of the pure set, and does not write back, set a field, store a
/// module variable, call out or call in tail position.
pub proof fn law_dce_never_deletes_what_acts(
    g: &DataFlowGraph,
    dead: Set<u32>,
    redirect: Map<u32, u32>,
    pure_set: Set<u32>,
    i: u32,
)
    requires
        acyclic(redirect),
        dce_dead(g, dead, redirect, pure_set).contains(i),
        !dead.contains(i),
        !redirect.contains_key(i),
    ensures
        i < g.nodes@.len(),
        pure_set.contains(g.nodes@[i as int].compute_fn.0),
        ({
            let kind = g.nodes@[i as int].kind;
            kind != NodeKind::Const && kind != NodeKind::Gate && kind != NodeKind::Call && kind != NodeKind::Await && kind
                != NodeKind::EventSource
        }),
        ({
            let m = g.meta@[i as int];
            m.writeback_target is None && m.field_set_name is None && m.global_store_slot is None && m.ffi_call_name is None
                && !m.tail_call
        }),
{
    law_dce_kills_only_pure(g, dead, redirect, pure_set, i);
    let m = g.meta@[i as int];
    if m.writeback_target is Some || m.field_set_name is Some || m.global_store_slot is Some || m.ffi_call_name is Some
        || m.tail_call {
        crate::pass::liveness::law_acting_nodes_are_live(g, redirect, i);
    }
}

/// A retained computation of the pure set that is not live and that no retained
/// node uses is deleted.
pub proof fn law_unused_computations_are_deleted(
    g: &DataFlowGraph,
    dead: Set<u32>,
    redirect: Map<u32, u32>,
    pure_set: Set<u32>,
    i: u32,
)
    requires
        i < g.nodes@.len(),
        !redirect.contains_key(i),
        !live_nodes(g, redirect).contains(i),
        pure_set.contains(g.nodes@[i as int].compute_fn.0),
        g.nodes@[i as int].kind != NodeKind::Const,
        g.nodes@[i as int].kind != NodeKind::Gate,
        g.nodes@[i as int].kind != NodeKind::Call,
        g.nodes@[i as int].kind != NodeKind::Await,
        g.nodes@[i as int].kind != NodeKind::EventSource,
        forall|n: u32, id: NodeId|
            n < g.nodes@.len() && !redirect.contains_key(n) && #[trigger] uses(g, n as int, id) ==> resolved(
                redirect,
                id.0,
            ) != i,
    ensures
        dce_dead(g, dead, redirect, pure_set).contains(i),
{
    let cand = dead_candidates(g, dead, redirect, pure_set);
    assert(cand.contains(i));
    let s = Set::new(|x: u32| x != i);
    assert(rescue_closed(g, redirect, cand, s));
    assert(!s.contains(i));
    assert(!rescued(g, redirect, cand).contains(i));
}

/// Function elimination kills exactly the retained nodes of functions that
/// cannot be reached from the entry; without an entry it kills nothing.
pub proof fn law_unreachable_functions_are_killed(g: &DataFlowGraph, dead: Set<u32>, redirect: Map<u32, u32>, i: u32)
    requires
        i < g.nodes@.len(),
        !dead.contains(i),
    ensures
        func_dce_dead(g, dead, redirect).contains(i) <==> {
            &&& g.entry_subgraph is Some
            &&& !redirect.contains_key(i)
            &&& g.owner_of(i as int) != NO_OWNER
            &&& !reachable_funcs(g, dead, redirect).contains(g.owner_of(i as int))
        },
{
}

/// The function of the entry is reachable, and so is every function that a
/// dispatch falls back to, and every function that a retained node of a
/// reachable function calls or closes over.
pub proof fn law_what_can_run_is_reachable(g: &DataFlowGraph, dead: Set<u32>, redirect: Map<u32, u32>, k: int)
    requires
        g.entry_subgraph is Some,
    ensures
        reachable_funcs(g, dead, redirect).contains(g.subgraphs@[(g.entry_subgraph->0).0 as int].function_id),
        0 <= k < g.vtable_fallback_dispatch@.len() ==> reachable_funcs(g, dead, redirect).contains(
            g.subgraphs@[g.vtable_fallback_dispatch@[k].target.0 as int].function_id,
        ),
        ({
            let m = g.meta@[k];
            let own = if g.owner_of(k) == NO_OWNER {
                g.subgraphs@[(g.entry_subgraph->0).0 as int].function_id
            } else {
                g.owner_of(k)
            };
            0 <= k < g.nodes@.len() && !dead.contains(k as u32) && !redirect.contains_key(k as u32) && reachable_funcs(
                g,
                dead,
                redirect,
            ).contains(own) ==> {
                &&& m.call_target is Some ==> reachable_funcs(g, dead, redirect).contains(
                    g.subgraphs@[(m.call_target->0).0 as int].function_id,
                )
                &&& m.closure_info is Some ==> reachable_funcs(g, dead, redirect).contains(
                    g.subgraphs@[m.closure_info->0.subgraph_id.0 as int].function_id,
                )
                &&& m.partial_info is Some ==> reachable_funcs(g, dead, redirect).contains(
                    g.subgraphs@[m.partial_info->0.subgraph_id.0 as int].function_id,
                )
                &&& m.lazy_construct_info is Some ==> reachable_funcs(g, dead, redirect).contains(
                    g.subgraphs@[m.lazy_construct_info->0.thunk_sg.0 as int].function_id,
                )
            }
        }),
{
    if 0 <= k < g.nodes@.len() && !dead.contains(k as u32) && !redirect.contains_key(k as u32) {
        let m = g.meta@[k];
        if m.call_target is Some {
            let t = m.call_target->0;
            crate::ir::sg_refs::law_metadata_names_subgraphs(m, t);
            if reachable_funcs(g, dead, redirect).contains(crate::pass::liveness::counted_owner(g, k)) {
                crate::pass::liveness::law_callees_of_reachable_functions_are_reachable(g, dead, redirect, k, t);
            }
        }
        if m.closure_info is Some {
            let t = m.closure_info->0.subgraph_id;
            crate::ir::sg_refs::law_metadata_names_subgraphs(m, t);
            if reachable_funcs(g, dead, redirect).contains(crate::pass::liveness::counted_owner(g, k)) {
                crate::pass::liveness::law_callees_of_reachable_functions_are_reachable(g, dead, redirect, k, t);
            }
        }
        if m.partial_info is Some {
            let t = m.partial_info->0.subgraph_id;
            crate::ir::sg_refs::law_metadata_names_subgraphs(m, t);
            if reachable_funcs(g, dead, redirect).contains(crate::pass::liveness::counted_owner(g, k)) {
                crate::pass::liveness::law_callees_of_reachable_functions_are_reachable(g, dead, redirect, k, t);
            }
        }
        if m.lazy_construct_info is Some {
            let t = m.lazy_construct_info->0.thunk_sg;
            crate::ir::sg_refs::law_metadata_names_subgraphs(m, t);
            if reachable_funcs(g, dead, redirect).contains(crate::pass::liveness::counted_owner(g, k)) {
                crate::pass::liveness::law_callees_of_reachable_functions_are_reachable(g, dead, redirect, k, t);
            }
        }
    }
}

} // verus!
