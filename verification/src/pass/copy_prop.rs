//! Copy propagation: a node that passes its only input through is replaced by
//! that input.

use vstd::prelude::*;

use crate::ir::compute_fns::CF_NOOP;
use crate::ir::graph::DataFlowGraph;
use crate::ir::layout::stays;
use crate::ir::redirect::{lemma_insert_acyclic, resolved};
use crate::ir::types::NodeId;
use crate::pass::context::OptimizerContext;
use crate::pass::liveness::{has_side_effect, side_effect};

verus! {

/// Whether node `i` only passes its input through.
pub open spec fn is_copy(g: &DataFlowGraph, i: int) -> bool {
    g.nodes@[i].input_count == 1 && g.nodes@[i].compute_fn.0 == CF_NOOP && !side_effect(g, i)
}

/// The redirects after node `i` has been looked at.
pub open spec fn copy_step(g: &DataFlowGraph, dead: Set<u32>, m: Map<u32, u32>, i: int) -> Map<
    u32,
    u32,
> {
    if stays(dead, m, i) && is_copy(g, i) && resolved(m, g.inputs_of(i)[0].0) != i {
        m.insert(i as u32, resolved(m, g.inputs_of(i)[0].0))
    } else {
        m
    }
}

/// The redirects after the first `n` nodes have been looked at.
pub open spec fn copy_redirects(
    g: &DataFlowGraph,
    dead: Set<u32>,
    m: Map<u32, u32>,
    n: int,
) -> Map<u32, u32>
    decreases n,
{
    if n <= 0 {
        m
    } else {
        copy_step(g, dead, copy_redirects(g, dead, m, n - 1), n - 1)
    }
}

/// Redirects every retained pass-through node to what its input stands for.
pub fn pass_copy_prop(graph: &DataFlowGraph, ctx: &mut OptimizerContext)
    requires
        graph.wf(),
        old(ctx).wf(graph.nodes@.len() as int),
    ensures
        *final(ctx) == (OptimizerContext { redirect: final(ctx).redirect, ..*old(ctx) }),
        final(ctx).redirect@ == copy_redirects(
            graph,
            old(ctx).dead@,
            old(ctx).redirect@,
            graph.nodes@.len() as int,
        ),
        final(ctx).wf(graph.nodes@.len() as int),
{
    let ghost first = ctx.redirect@;
    let mut i: usize = 0;
    while i < graph.nodes.len()
        invariant
            graph.wf(),
            first == old(ctx).redirect@,
            i <= graph.nodes@.len(),
            *ctx == (OptimizerContext { redirect: ctx.redirect, ..*old(ctx) }),
            ctx.redirect@ == copy_redirects(graph, ctx.dead@, first, i as int),
            ctx.wf(graph.nodes@.len() as int),
        decreases graph.nodes@.len() - i,
    {
        let id = NodeId(i as u32);
        let node = graph.nodes[i];
        if ctx.is_live(id) && node.input_count == 1 && node.compute_fn.0 == CF_NOOP
            && !has_side_effect(graph, i) {
            let inputs = graph.inputs(i);
            let src = ctx.resolve(inputs[0]);
            if src != id {
                proof {
                    lemma_insert_acyclic(ctx.redirect@, id.0, src.0);
                }
                ctx.redirect.insert(id.0, src.0);
            }
        }
        i = i + 1;
    }
}

// ---- laws ------------------------------------------------------------------

/// A redirect that was there stays, and a new one replaces a retained
/// pass-through node.
pub proof fn law_copy_prop_adds_only_copies(
    g: &DataFlowGraph,
    dead: Set<u32>,
    m: Map<u32, u32>,
    n: int,
    k: u32,
)
    requires
        0 <= n <= g.nodes@.len() <= u32::MAX,
        copy_redirects(g, dead, m, n).contains_key(k),
    ensures
        m.contains_key(k) ==> copy_redirects(g, dead, m, n)[k] == m[k],
        !m.contains_key(k) ==> k < n && stays(dead, m, k as int) && is_copy(g, k as int)
            && copy_redirects(g, dead, m, n)[k] != k,
    decreases n,
{
    if n > 0 {
        let prev = copy_redirects(g, dead, m, n - 1);
        if prev.contains_key(k) {
            law_copy_prop_adds_only_copies(g, dead, m, n - 1, k);
        } else {
            lemma_old_keys_stay(g, dead, m, n - 1, k);
        }
    }
}

proof fn lemma_old_keys_stay(
    g: &DataFlowGraph,
    dead: Set<u32>,
    m: Map<u32, u32>,
    n: int,
    k: u32,
)
    ensures
        m.contains_key(k) ==> copy_redirects(g, dead, m, n).contains_key(k),
    decreases n,
{
    if n > 0 {
        lemma_old_keys_stay(g, dead, m, n - 1, k);
    }
}

/// Where a node is newly redirected it has one input and does nothing with it,
/// and it is redirected to what that input stood for when it was looked at: the
/// redirects of that moment are among those of the end. Returns them.
pub proof fn law_copies_stand_for_their_input(
    g: &DataFlowGraph,
    dead: Set<u32>,
    m: Map<u32, u32>,
    n: int,
    k: u32,
) -> (then: Map<u32, u32>)
    requires
        0 <= n <= g.nodes@.len() <= u32::MAX,
        copy_redirects(g, dead, m, n).contains_key(k),
        !m.contains_key(k),
    ensures
        g.nodes@[k as int].input_count == 1,
        g.nodes@[k as int].compute_fn.0 == CF_NOOP,
        g.meta@[k as int].writeback_target is None && !g.meta@[k as int].tail_call,
        then.submap_of(copy_redirects(g, dead, m, n)),
        m.submap_of(then),
        copy_redirects(g, dead, m, n)[k] == resolved(then, g.inputs_of(k as int)[0].0),
    decreases n,
{
    let prev = copy_redirects(g, dead, m, n - 1);
    if prev.contains_key(k) {
        let then = law_copies_stand_for_their_input(g, dead, m, n - 1, k);
        lemma_redirects_grow(g, dead, m, n);
        then
    } else {
        lemma_redirects_grow(g, dead, m, n);
        lemma_redirects_kept(g, dead, m, n - 1);
        prev
    }
}

proof fn lemma_redirects_grow(g: &DataFlowGraph, dead: Set<u32>, m: Map<u32, u32>, n: int)
    requires
        n > 0,
    ensures
        copy_redirects(g, dead, m, n - 1).submap_of(copy_redirects(g, dead, m, n)),
{
}

proof fn lemma_redirects_kept(g: &DataFlowGraph, dead: Set<u32>, m: Map<u32, u32>, n: int)
    ensures
        m.submap_of(copy_redirects(g, dead, m, n)),
    decreases n,
{
    if n > 0 {
        lemma_redirects_kept(g, dead, m, n - 1);
        lemma_redirects_grow(g, dead, m, n);
    }
}

/// A retained node that passes its only input through, without a side effect,
/// is redirected in the end, unless its input led back to it when it was looked
/// at.
pub proof fn law_copies_are_redirected(g: &DataFlowGraph, dead: Set<u32>, m: Map<u32, u32>, n: int, k: int)
    requires
        0 <= k < n <= g.nodes@.len() <= u32::MAX,
        !dead.contains(k as u32),
        g.nodes@[k].input_count == 1,
        g.nodes@[k].compute_fn.0 == CF_NOOP,
        !side_effect(g, k),
    ensures
        copy_redirects(g, dead, m, n).contains_key(k as u32) || resolved(
            copy_redirects(g, dead, m, k),
            g.inputs_of(k)[0].0,
        ) == k,
    decreases n,
{
    if k < n - 1 {
        law_copies_are_redirected(g, dead, m, n - 1, k);
        lemma_redirects_grow(g, dead, m, n);
    }
}

} // verus!
