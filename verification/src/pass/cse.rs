//! Common subexpression elimination.
//!
//! Of several pure nodes with the same compute function, the same inputs (up
//! to redirects) and the same metadata, the first is kept and the others are
//! redirected to it, where the region of the kept one dominates theirs.
//! Mutually exclusive branches are never merged.

use vstd::prelude::*;

use crate::fx::{IdMap, IdSet};
use crate::ir::graph::DataFlowGraph;
use crate::ir::layout::stays;
use crate::ir::meta_eq::{metadata_agrees, same_metadata};
use crate::ir::redirect::{acyclic, lemma_insert_acyclic, resolved};
use crate::ir::region::{covers, graph_ranges, region_dominates, smallest_range, RegionTree};
use crate::ir::types::{LoopKind, NodeId, NodeKind, SubGraphId};
use crate::pass::context::OptimizerContext;
use crate::pass::liveness::{
    collect_writeback_targets, has_side_effect, is_writeback_target, side_effect,
};

verus! {

/// The innermost region of a node.
pub open spec fn innermost(g: &DataFlowGraph, i: int) -> Option<SubGraphId> {
    choose|r: Option<SubGraphId>|
        smallest_range(graph_ranges(g), covers(graph_ranges(g), i), r)
}

proof fn lemma_smallest_unique(
    ranges: Seq<(u32, u32)>,
    wanted: spec_fn(int) -> bool,
    a: Option<SubGraphId>,
    b: Option<SubGraphId>,
)
    requires
        smallest_range(ranges, wanted, a),
        smallest_range(ranges, wanted, b),
    ensures
        a == b,
{
    if a is Some && b is Some {
        assert(wanted((a->0).0 as int) && wanted((b->0).0 as int));
    }
}

proof fn lemma_innermost(g: &DataFlowGraph, i: int, r: Option<SubGraphId>)
    requires
        smallest_range(graph_ranges(g), covers(graph_ranges(g), i), r),
    ensures
        innermost(g, i) == r,
{
    lemma_smallest_unique(graph_ranges(g), covers(graph_ranges(g), i), innermost(g, i), r);
}

/// A kept node: what it computes, and on which inputs.
pub struct Kept {
    pub id: u32,
    pub compute_fn: u32,
    pub inputs: Seq<u32>,
}

/// The inputs of a node, redirects followed.
pub open spec fn resolved_inputs(g: &DataFlowGraph, m: Map<u32, u32>, i: int) -> Seq<u32> {
    Seq::new(g.inputs_of(i).len(), |j: int| resolved(m, g.inputs_of(i)[j].0))
}

/// Whether the kept node computes the same as node `i`.
pub open spec fn computes_same(g: &DataFlowGraph, m: Map<u32, u32>, kept: Kept, i: int) -> bool {
    &&& kept.compute_fn == g.nodes@[i].compute_fn.0
    &&& kept.inputs == resolved_inputs(g, m, i)
    &&& same_metadata(g.meta@[kept.id as int], g.meta@[i])
}

/// The first of the first `n` kept nodes that computes the same as node `i`.
pub open spec fn find_kept(
    g: &DataFlowGraph,
    m: Map<u32, u32>,
    kept: Seq<Kept>,
    n: int,
    i: int,
) -> Option<u32>
    decreases n,
{
    if n <= 0 {
        None
    } else if find_kept(g, m, kept, n - 1, i) is Some {
        find_kept(g, m, kept, n - 1, i)
    } else if computes_same(g, m, kept[n - 1], i) {
        Some(kept[n - 1].id)
    } else {
        None
    }
}

/// Whether the pass looks at node `i` at all.
pub open spec fn cse_eligible(
    g: &DataFlowGraph,
    dead: Set<u32>,
    pure_set: Set<u32>,
    m: Map<u32, u32>,
    i: int,
) -> bool {
    &&& stays(dead, m, i)
    &&& pure_set.contains(g.nodes@[i].compute_fn.0)
    &&& g.nodes@[i].kind != NodeKind::Gate
    &&& !side_effect(g, i)
    &&& !is_writeback_target(g, i as u32)
}

/// Whether the duplicate `i` may be replaced by `existing`: in the same
/// region always; across regions only from a region that dominates, and
/// neither out of a loop subgraph nor away from a subgraph's anchors.
pub open spec fn merge_legal(g: &DataFlowGraph, existing: int, i: int) -> bool {
    match (innermost(g, existing), innermost(g, i)) {
        (None, None) => true,
        (Some(e), Some(d)) => e == d || {
            let sg = g.subgraphs@[d.0 as int];
            &&& sg.loop_kind == LoopKind::NotLoop
            &&& sg.entry_node.0 != i && sg.return_node.0 != i
            &&& region_dominates(graph_ranges(g), e.0 as int, d.0 as int)
        },
        _ => false,
    }
}

/// Redirects and kept nodes so far.
pub struct CseState {
    pub redirect: Map<u32, u32>,
    pub kept: Seq<Kept>,
}

/// The state after node `i` has been looked at.
pub open spec fn cse_step(
    g: &DataFlowGraph,
    dead: Set<u32>,
    pure_set: Set<u32>,
    st: CseState,
    i: int,
) -> CseState {
    if !cse_eligible(g, dead, pure_set, st.redirect, i) {
        st
    } else {
        match find_kept(g, st.redirect, st.kept, st.kept.len() as int, i) {
            Some(e) => if merge_legal(g, e as int, i) {
                CseState { redirect: st.redirect.insert(i as u32, e), kept: st.kept }
            } else {
                st
            },
            None => CseState {
                redirect: st.redirect,
                kept: st.kept.push(
                    Kept {
                        id: i as u32,
                        compute_fn: g.nodes@[i].compute_fn.0,
                        inputs: resolved_inputs(g, st.redirect, i),
                    },
                ),
            },
        }
    }
}

/// The state after the first `n` nodes have been looked at.
pub open spec fn cse_state(
    g: &DataFlowGraph,
    dead: Set<u32>,
    pure_set: Set<u32>,
    m: Map<u32, u32>,
    n: int,
) -> CseState
    decreases n,
{
    if n <= 0 {
        CseState { redirect: m, kept: Seq::empty() }
    } else {
        cse_step(g, dead, pure_set, cse_state(g, dead, pure_set, m, n - 1), n - 1)
    }
}

/// A kept node in executable form.
struct KeptNode {
    id: u32,
    compute_fn: u32,
    inputs: Vec<u32>,
}

spec fn kept_views(v: Seq<KeptNode>) -> Seq<Kept> {
    Seq::new(
        v.len(),
        |k: int| Kept { id: v[k].id, compute_fn: v[k].compute_fn, inputs: v[k].inputs@ },
    )
}

/// The kept nodes by compute function: `at` gives the list of positions.
spec fn indexed(kept: Seq<KeptNode>, at: Map<u32, u32>, lists: Seq<Vec<usize>>) -> bool {
    &&& forall|f: u32| #[trigger] at.contains_key(f) ==> at[f] < lists.len()
    &&& forall|f: u32, h: u32|
        at.contains_key(f) && at.contains_key(h) && f != h ==> #[trigger] at[f] != #[trigger] at[h]
    &&& forall|f: u32, k: int|
        at.contains_key(f) && 0 <= k < lists[at[f] as int]@.len() ==> {
            let p = #[trigger] lists[at[f] as int]@[k];
            p < kept.len() && kept[p as int].compute_fn == f
        }
    &&& forall|f: u32, k: int, l: int|
        at.contains_key(f) && 0 <= k < l < lists[at[f] as int]@.len() ==> #[trigger] lists[at[f] as int]@[k]
            < #[trigger] lists[at[f] as int]@[l]
    &&& forall|p: int|
        0 <= p < kept.len() ==> at.contains_key((#[trigger] kept[p]).compute_fn)
            && lists[at[kept[p].compute_fn] as int]@.contains(p as usize)
}

fn inputs_agree(a: &Vec<u32>, b: &Vec<u32>) -> (r: bool)
    ensures
        r == (a@ == b@),
{
    if a.len() != b.len() {
        return false;
    }
    let mut i: usize = 0;
    while i < a.len()
        invariant
            i <= a@.len() == b@.len(),
            forall|k: int| 0 <= k < i ==> #[trigger] a@[k] == b@[k],
        decreases a@.len() - i,
    {
        if a[i] != b[i] {
            return false;
        }
        i = i + 1;
    }
    assert(a@ =~= b@);
    true
}

proof fn lemma_find_first(
    g: &DataFlowGraph,
    m: Map<u32, u32>,
    kept: Seq<Kept>,
    n: int,
    i: int,
    p: int,
)
    requires
        0 <= p < n <= kept.len(),
        computes_same(g, m, kept[p], i),
        forall|q: int| 0 <= q < p ==> !computes_same(g, m, #[trigger] kept[q], i),
    ensures
        find_kept(g, m, kept, n, i) == Some(kept[p].id),
    decreases n,
{
    if n - 1 > p {
        lemma_find_first(g, m, kept, n - 1, i, p);
    } else {
        lemma_find_none(g, m, kept, p, i);
    }
}

proof fn lemma_find_none(g: &DataFlowGraph, m: Map<u32, u32>, kept: Seq<Kept>, n: int, i: int)
    requires
        0 <= n <= kept.len(),
        forall|q: int| 0 <= q < n ==> !computes_same(g, m, #[trigger] kept[q], i),
    ensures
        find_kept(g, m, kept, n, i) is None,
    decreases n,
{
    if n > 0 {
        lemma_find_none(g, m, kept, n - 1, i);
    }
}

/// Looks for a kept node that computes the same as node `i`.
fn look_up(
    graph: &DataFlowGraph,
    Ghost(m): Ghost<Map<u32, u32>>,
    kept: &Vec<KeptNode>,
    at: &IdMap,
    lists: &Vec<Vec<usize>>,
    i: usize,
    inputs: &Vec<u32>,
) -> (r: Option<u32>)
    requires
        graph.meta@.len() == graph.nodes@.len(),
        i < graph.nodes@.len(),
        inputs@ == resolved_inputs(graph, m, i as int),
        indexed(kept@, at@, lists@),
        forall|p: int| 0 <= p < kept@.len() ==> (#[trigger] kept@[p]).id < graph.nodes@.len(),
    ensures
        r == find_kept(graph, m, kept_views(kept@), kept@.len() as int, i as int),
{
    let ghost views = kept_views(kept@);
    assert(kept@.len() == kept.len() <= usize::MAX);
    let f = graph.nodes[i].compute_fn.0;
    let slot = match at.get(f) {
        None => {
            proof {
                assert forall|q: int| 0 <= q < views.len() implies !computes_same(
                    graph,
                    m,
                    #[trigger] views[q],
                    i as int,
                ) by {
                    assert(at@.contains_key(kept@[q].compute_fn));
                }
                lemma_find_none(graph, m, views, views.len() as int, i as int);
            }
            return None;
        },
        Some(s) => s as usize,
    };
    let list = &lists[slot];
    let mut k: usize = 0;
    while k < list.len()
        invariant
            graph.meta@.len() == graph.nodes@.len(),
            i < graph.nodes@.len(),
            f == graph.nodes@[i as int].compute_fn.0,
            inputs@ == resolved_inputs(graph, m, i as int),
            indexed(kept@, at@, lists@),
            forall|p: int| 0 <= p < kept@.len() ==> (#[trigger] kept@[p]).id < graph.nodes@.len(),
            views == kept_views(kept@),
            views.len() <= usize::MAX,
            at@.contains_key(f),
            at@[f] == slot,
            slot < lists@.len(),
            *list == lists@[slot as int],
            k <= list@.len(),
            forall|q: int|
                0 <= q < k ==> !computes_same(
                    graph,
                    m,
                    views[#[trigger] list@[q] as int],
                    i as int,
                ),
        decreases list@.len() - k,
    {
        let p = list[k];
        assert(lists@[at@[f] as int]@[k as int] == p);
        let entry = &kept[p];
        if inputs_agree(&entry.inputs, inputs) && metadata_agrees(
            &graph.meta[entry.id as usize],
            &graph.meta[i],
        ) {
            proof {
                assert(computes_same(graph, m, views[p as int], i as int));
                assert forall|q: int| 0 <= q < p implies !computes_same(
                    graph,
                    m,
                    #[trigger] views[q],
                    i as int,
                ) by {
                    if kept@[q].compute_fn == f {
                        let t = choose|t: int|
                            0 <= t < list@.len() && #[trigger] list@[t] == q as usize;
                        if t >= k {
                            if t > k {
                                assert(lists@[at@[f] as int]@[k as int] < lists@[at@[f] as int]@[t]);
                            }
                        }
                        assert(!computes_same(graph, m, views[list@[t] as int], i as int));
                    }
                }
                lemma_find_first(graph, m, views, views.len() as int, i as int, p as int);
            }
            return Some(entry.id);
        }
        assert(!computes_same(graph, m, views[p as int], i as int));
        k = k + 1;
    }
    proof {
        assert forall|q: int| 0 <= q < views.len() implies !computes_same(
            graph,
            m,
            #[trigger] views[q],
            i as int,
        ) by {
            if kept@[q].compute_fn == f {
                let t = choose|t: int| 0 <= t < list@.len() && #[trigger] list@[t] == q as usize;
                assert(!computes_same(graph, m, views[list@[t] as int], i as int));
            }
        }
        lemma_find_none(graph, m, views, views.len() as int, i as int);
    }
    None
}

fn keep_node(
    kept: &mut Vec<KeptNode>,
    at: &mut IdMap,
    lists: &mut Vec<Vec<usize>>,
    node: KeptNode,
)
    requires
        indexed(old(kept)@, old(at)@, old(lists)@),
        old(lists)@.len() <= old(kept)@.len() < u32::MAX,
    ensures
        final(kept)@ == old(kept)@.push(node),
        indexed(final(kept)@, final(at)@, final(lists)@),
        final(lists)@.len() <= final(kept)@.len(),
{
    let f = node.compute_fn;
    let pos = kept.len();
    let ghost kept0 = kept@;
    let ghost at0 = at@;
    let ghost lists0 = lists@;
    let slot: usize = match at.get(f) {
        Some(s) => s as usize,
        None => {
            let s = lists.len();
            at.insert(f, s as u32);
            lists.push(Vec::new());
            s
        },
    };
    let ghost lists1 = lists@;
    lists[slot].push(pos);
    kept.push(node);
    proof {
        assert forall|h: u32, k: int|
            at@.contains_key(h) && 0 <= k < lists@[at@[h] as int]@.len() implies {
            let p = #[trigger] lists@[at@[h] as int]@[k];
            p < kept@.len() && kept@[p as int].compute_fn == h
        } by {
            if h == f {
                if k < lists1[slot as int]@.len() {
                    assert(at0.contains_key(h));
                    assert(lists0[at0[h] as int]@[k] == lists@[at@[h] as int]@[k]);
                }
            } else {
                assert(at0.contains_key(h));
                assert(at@[h] != slot);
                assert(lists0[at0[h] as int]@[k] == lists@[at@[h] as int]@[k]);
            }
        }
        assert forall|h: u32, k: int, l: int|
            at@.contains_key(h) && 0 <= k < l < lists@[at@[h] as int]@.len() implies #[trigger] lists@[at@[h] as int]@[k]
            < #[trigger] lists@[at@[h] as int]@[l] by {
            if h == f {
                if l < lists1[slot as int]@.len() {
                    assert(at0.contains_key(h));
                    assert(lists0[at0[h] as int]@[k] < lists0[at0[h] as int]@[l]);
                } else if at0.contains_key(h) {
                    assert(lists0[at0[h] as int]@[k] < kept0.len());
                }
            } else {
                assert(at0.contains_key(h));
                assert(at@[h] != slot);
                assert(lists0[at0[h] as int]@[k] < lists0[at0[h] as int]@[l]);
            }
        }
        assert forall|p: int| 0 <= p < kept@.len() implies at@.contains_key(
            (#[trigger] kept@[p]).compute_fn,
        ) && lists@[at@[kept@[p].compute_fn] as int]@.contains(p as usize) by {
            let h = kept@[p].compute_fn;
            if p < kept0.len() {
                assert(kept0[p].compute_fn == h);
                let old_list = lists0[at0[h] as int]@;
                let t = choose|t: int| 0 <= t < old_list.len() && old_list[t] == p as usize;
                assert(lists@[at@[h] as int]@[t] == p as usize);
            } else {
                let l = lists@[slot as int]@;
                assert(l[l.len() - 1] == pos);
            }
        }
    }
}

/// Merges pure nodes that compute the same.
pub fn pass_cse(graph: &DataFlowGraph, ctx: &mut OptimizerContext, pure_set: &IdSet)
    requires
        graph.wf(),
        graph.subgraphs@.len() <= u32::MAX,
        old(ctx).wf(graph.nodes@.len() as int),
    ensures
        *final(ctx) == (OptimizerContext { redirect: final(ctx).redirect, ..*old(ctx) }),
        final(ctx).redirect@ == cse_state(
            graph,
            old(ctx).dead@,
            pure_set@,
            old(ctx).redirect@,
            graph.nodes@.len() as int,
        ).redirect,
        final(ctx).wf(graph.nodes@.len() as int),
{
    let ghost first = ctx.redirect@;
    let ghost dead = ctx.dead@;
    let wb_targets = collect_writeback_targets(graph);
    let regions = RegionTree::build(graph);
    let inner = regions.innermost_all(graph.nodes.len());
    let mut kept: Vec<KeptNode> = Vec::new();
    let mut at = IdMap::new();
    let mut lists: Vec<Vec<usize>> = Vec::new();
    assert(kept_views(kept@) =~= Seq::<Kept>::empty());
    let mut i: usize = 0;
    while i < graph.nodes.len()
        invariant
            graph.wf(),
            graph.subgraphs@.len() <= u32::MAX,
            first == old(ctx).redirect@,
            dead == old(ctx).dead@,
            i <= graph.nodes@.len(),
            forall|id: u32| #[trigger]
                wb_targets@.contains(id) <==> is_writeback_target(graph, id),
            regions.spec_ranges() == graph_ranges(graph),
            inner@.len() == graph.nodes@.len(),
            forall|k: int|
                0 <= k < inner@.len() ==> smallest_range(
                    graph_ranges(graph),
                    covers(graph_ranges(graph), k),
                    #[trigger] inner@[k],
                ),
            *ctx == (OptimizerContext { redirect: ctx.redirect, ..*old(ctx) }),
            ctx.wf(graph.nodes@.len() as int),
            kept@.len() <= i,
            lists@.len() <= kept@.len(),
            indexed(kept@, at@, lists@),
            forall|p: int|
                0 <= p < kept@.len() ==> (#[trigger] kept@[p]).id < i && !ctx.redirect@.contains_key(
                    kept@[p].id,
                ),
            ({
                let st = cse_state(graph, dead, pure_set@, first, i as int);
                ctx.redirect@ == st.redirect && kept_views(kept@) == st.kept
            }),
        decreases graph.nodes@.len() - i,
    {
        let ghost m = ctx.redirect@;
        let ghost st = cse_state(graph, dead, pure_set@, first, i as int);
        let ghost views = kept_views(kept@);
        let id = NodeId(i as u32);
        let node = graph.nodes[i];
        if ctx.is_live(id) && pure_set.contains(node.compute_fn.0) && node.kind != NodeKind::Gate
            && !has_side_effect(graph, i) && !wb_targets.contains(id.0) {
            assert(cse_eligible(graph, dead, pure_set@, m, i as int));
            let inputs = resolve_inputs(graph, ctx, i);
            let found = look_up(graph, Ghost(m), &kept, &at, &lists, i, &inputs);
            match found {
                Some(existing) => {
                    proof {
                        lemma_found_is_kept(graph, m, views, views.len() as int, i as int);
                        let p = choose|p: int|
                            0 <= p < views.len() && views[p].id == existing;
                        assert(kept@[p].id == existing);
                    }
                    let ex = inner[existing as usize];
                    let du = inner[i];
                    proof {
                        lemma_innermost(graph, existing as int, ex);
                        lemma_innermost(graph, i as int, du);
                    }
                    let legal = match (ex, du) {
                        (None, None) => true,
                        (Some(e), Some(d)) => {
                            assert(e.0 < graph_ranges(graph).len());
                            assert(d.0 < graph_ranges(graph).len());
                            if e == d {
                                true
                            } else {
                                let sg = &graph.subgraphs[d.0 as usize];
                                sg.loop_kind == LoopKind::NotLoop && sg.entry_node != id
                                    && sg.return_node != id && regions.dominates(e, d)
                            }
                        },
                        _ => false,
                    };
                    assert(legal == merge_legal(graph, existing as int, i as int));
                    if legal {
                        proof {
                            lemma_insert_acyclic(m, id.0, existing);
                        }
                        ctx.redirect.insert(id.0, existing);
                    }
                },
                None => {
                    let entry = KeptNode { id: id.0, compute_fn: node.compute_fn.0, inputs };
                    keep_node(&mut kept, &mut at, &mut lists, entry);
                    assert(kept_views(kept@) =~= st.kept.push(
                        Kept {
                            id: i as u32,
                            compute_fn: graph.nodes@[i as int].compute_fn.0,
                            inputs: resolved_inputs(graph, m, i as int),
                        },
                    ));
                },
            }
        }
        i = i + 1;
    }
}

fn resolve_inputs(graph: &DataFlowGraph, ctx: &OptimizerContext, i: usize) -> (r: Vec<u32>)
    requires
        graph.wf(),
        i < graph.nodes@.len(),
        acyclic(ctx.redirect@),
    ensures
        r@ == resolved_inputs(graph, ctx.redirect@, i as int),
{
    let inputs = graph.inputs(i);
    let mut r: Vec<u32> = Vec::new();
    let mut j: usize = 0;
    while j < inputs.len()
        invariant
            acyclic(ctx.redirect@),
            inputs@ == graph.inputs_of(i as int),
            j <= inputs@.len(),
            r@ == resolved_inputs(graph, ctx.redirect@, i as int).take(j as int),
        decreases inputs@.len() - j,
    {
        r.push(ctx.resolve(inputs[j]).0);
        assert(r@ =~= resolved_inputs(graph, ctx.redirect@, i as int).take(j + 1));
        j = j + 1;
    }
    assert(r@ =~= resolved_inputs(graph, ctx.redirect@, i as int));
    r
}

proof fn lemma_found_is_kept(g: &DataFlowGraph, m: Map<u32, u32>, kept: Seq<Kept>, n: int, i: int)
    requires
        0 <= n <= kept.len(),
    ensures
        find_kept(g, m, kept, n, i) is Some ==> exists|p: int|
            0 <= p < n && computes_same(g, m, #[trigger] kept[p], i) && kept[p].id == find_kept(
                g,
                m,
                kept,
                n,
                i,
            )->0,
    decreases n,
{
    if n > 0 {
        lemma_found_is_kept(g, m, kept, n - 1, i);
        if find_kept(g, m, kept, n - 1, i) is Some {
            let p = choose|p: int|
                0 <= p < n - 1 && computes_same(g, m, #[trigger] kept[p], i) && kept[p].id
                    == find_kept(g, m, kept, n - 1, i)->0;
            assert(0 <= p < n && computes_same(g, m, kept[p], i));
        } else if computes_same(g, m, kept[n - 1], i) {
            assert(kept[n - 1].id == find_kept(g, m, kept, n, i)->0);
        }
    }
}

// ---- laws ------------------------------------------------------------------

proof fn lemma_kept_ids(
    g: &DataFlowGraph,
    dead: Set<u32>,
    pure_set: Set<u32>,
    m: Map<u32, u32>,
    n: int,
    p: int,
)
    requires
        0 <= n <= g.nodes@.len() <= u32::MAX,
        0 <= p < cse_state(g, dead, pure_set, m, n).kept.len(),
    ensures
        ({
            let k = cse_state(g, dead, pure_set, m, n).kept[p];
            let then = cse_state(g, dead, pure_set, m, k.id as int).redirect;
            &&& k.id < n
            &&& k.compute_fn == g.nodes@[k.id as int].compute_fn.0
            &&& k.inputs == resolved_inputs(g, then, k.id as int)
            &&& cse_eligible(g, dead, pure_set, then, k.id as int)
        }),
    decreases n,
{
    if n > 0 {
        let prev = cse_state(g, dead, pure_set, m, n - 1);
        if p < prev.kept.len() {
            lemma_kept_ids(g, dead, pure_set, m, n - 1, p);
        }
    }
}

/// A node that the pass redirects, and what replaces it, are both pure and free
/// of side effects, and no writeback changes either; what replaces it comes
/// before it, has the same compute function, the same inputs as far as they
/// were merged when each was looked at, and the same metadata, and may legally
/// replace it.
pub proof fn law_cse_merges_equals(
    g: &DataFlowGraph,
    dead: Set<u32>,
    pure_set: Set<u32>,
    m: Map<u32, u32>,
    n: int,
    k: u32,
)
    requires
        0 <= n <= g.nodes@.len() <= u32::MAX,
        !m.contains_key(k),
        cse_state(g, dead, pure_set, m, n).redirect.contains_key(k),
    ensures
        ({
            let e = cse_state(g, dead, pure_set, m, n).redirect[k];
            let at_e = cse_state(g, dead, pure_set, m, e as int).redirect;
            let at_k = cse_state(g, dead, pure_set, m, k as int).redirect;
            &&& e < k < n
            &&& cse_eligible(g, dead, pure_set, at_k, k as int)
            &&& cse_eligible(g, dead, pure_set, at_e, e as int)
            &&& resolved_inputs(g, at_e, e as int) == resolved_inputs(g, at_k, k as int)
            &&& g.nodes@[e as int].compute_fn == g.nodes@[k as int].compute_fn
            &&& same_metadata(g.meta@[e as int], g.meta@[k as int])
            &&& merge_legal(g, e as int, k as int)
        }),
    decreases n,
{
    if n > 0 {
        let prev = cse_state(g, dead, pure_set, m, n - 1);
        if prev.redirect.contains_key(k) {
            law_cse_merges_equals(g, dead, pure_set, m, n - 1, k);
        } else {
            lemma_found_is_kept(g, prev.redirect, prev.kept, prev.kept.len() as int, n - 1);
            let e = find_kept(g, prev.redirect, prev.kept, prev.kept.len() as int, n - 1)->0;
            let p = choose|p: int|
                0 <= p < prev.kept.len() && computes_same(
                    g,
                    prev.redirect,
                    #[trigger] prev.kept[p],
                    n - 1,
                ) && prev.kept[p].id == e;
            lemma_kept_ids(g, dead, pure_set, m, n - 1, p);
        }
    }
}

/// Two nodes in regions that share no node are never merged: branches that
/// exclude each other stay apart.
pub proof fn law_exclusive_branches_are_never_merged(
    g: &DataFlowGraph,
    a: int,
    b: int,
    x: SubGraphId,
    y: SubGraphId,
)
    requires
        innermost(g, a) == Some(x),
        innermost(g, b) == Some(y),
        x.0 < g.subgraphs@.len(),
        y.0 < g.subgraphs@.len(),
        g.subgraphs@[x.0 as int].node_range.0.0 < g.subgraphs@[x.0 as int].node_range.1.0,
        g.subgraphs@[y.0 as int].node_range.0.0 < g.subgraphs@[y.0 as int].node_range.1.0,
        g.subgraphs@[x.0 as int].node_range.1.0 <= g.subgraphs@[y.0 as int].node_range.0.0
            || g.subgraphs@[y.0 as int].node_range.1.0 <= g.subgraphs@[x.0 as int].node_range.0.0,
    ensures
        !merge_legal(g, a, b),
        !merge_legal(g, b, a),
{
    crate::ir::region::law_siblings_never_dominate(graph_ranges(g), x.0 as int, y.0 as int);
}

/// What two merged nodes have in common, and where they lie. Both are retained
/// computations without effect that nothing writes back to, with the same
/// compute function, as many inputs, and the same fields, casts, patterns and
/// variables read. The kept node's innermost region is the duplicate's, or
/// strictly contains it; in the latter case the duplicate's region is no loop,
/// and neither starts nor returns at the duplicate.
pub proof fn law_merged_nodes_are_alike(
    g: &DataFlowGraph,
    dead: Set<u32>,
    pure_set: Set<u32>,
    m: Map<u32, u32>,
    n: int,
    k: u32,
)
    requires
        0 <= n <= g.nodes@.len() <= u32::MAX,
        g.meta@.len() == g.nodes@.len(),
        !m.contains_key(k),
        cse_state(g, dead, pure_set, m, n).redirect.contains_key(k),
    ensures
        ({
            let e = cse_state(g, dead, pure_set, m, n).redirect[k] as int;
            let d = k as int;
            let a = g.meta@[e];
            let b = g.meta@[d];
            &&& e < d < n
            &&& !dead.contains(e as u32) && !dead.contains(k) && !m.contains_key(e as u32)
            &&& g.nodes@[e].compute_fn == g.nodes@[d].compute_fn
            &&& pure_set.contains(g.nodes@[d].compute_fn.0)
            &&& g.nodes@[e].kind != NodeKind::Gate && g.nodes@[d].kind != NodeKind::Gate
            &&& g.inputs_of(e).len() == g.inputs_of(d).len()
            &&& a.writeback_target is None && b.writeback_target is None
            &&& a.field_set_name is None && b.field_set_name is None
            &&& a.global_store_slot is None && b.global_store_slot is None
            &&& a.ffi_call_name is None && b.ffi_call_name is None
            &&& !a.tail_call && !b.tail_call
            &&& forall|w: int| #![trigger g.meta@[w]]
                0 <= w < g.meta@.len() ==> g.meta@[w].writeback_target != Some(NodeId(e as u32))
                    && g.meta@[w].writeback_target != Some(NodeId(k))
            &&& a.field_access_info == b.field_access_info
            &&& a.pattern_field_index == b.pattern_field_index
            &&& a.global_load_slot == b.global_load_slot
            &&& a.safe_op == b.safe_op && a.slice_inclusive == b.slice_inclusive
            &&& a.cast_target_type is Some <==> b.cast_target_type is Some
            &&& a.cast_target_type is Some ==> a.cast_target_type->0@ == b.cast_target_type->0@
            &&& a.pattern_ctor_name is Some <==> b.pattern_ctor_name is Some
            &&& a.pattern_ctor_name is Some ==> a.pattern_ctor_name->0@ == b.pattern_ctor_name->0@
            &&& match (innermost(g, e), innermost(g, d)) {
                (None, None) => true,
                (Some(x), Some(y)) => x == y || {
                    let outer = g.subgraphs@[x.0 as int];
                    let inner = g.subgraphs@[y.0 as int];
                    &&& x.0 < g.subgraphs@.len() && y.0 < g.subgraphs@.len() ==> outer.node_range.0.0
                        <= inner.node_range.0.0 && inner.node_range.1.0 <= outer.node_range.1.0 && outer.node_range
                        != inner.node_range
                    &&& inner.loop_kind == LoopKind::NotLoop
                    &&& inner.entry_node != NodeId(k) && inner.return_node != NodeId(k)
                },
                _ => false,
            }
        }),
{
    law_cse_merges_equals(g, dead, pure_set, m, n, k);
    let e = cse_state(g, dead, pure_set, m, n).redirect[k] as int;
    let d = k as int;
    let at_e = cse_state(g, dead, pure_set, m, e).redirect;
    let at_k = cse_state(g, dead, pure_set, m, d).redirect;
    assert(resolved_inputs(g, at_e, e).len() == g.inputs_of(e).len());
    assert(resolved_inputs(g, at_k, d).len() == g.inputs_of(d).len());
    lemma_redirects_grow(g, dead, pure_set, m, e, e as u32);
    assert forall|w: int| #![trigger g.meta@[w]] 0 <= w < g.meta@.len() implies g.meta@[w].writeback_target != Some(
        NodeId(e as u32),
    ) && g.meta@[w].writeback_target != Some(NodeId(k)) by {
        if g.meta@[w].writeback_target == Some(NodeId(e as u32)) {
            assert(is_writeback_target(g, e as u32));
        }
        if g.meta@[w].writeback_target == Some(NodeId(k)) {
            assert(is_writeback_target(g, k));
        }
    }
}

proof fn lemma_redirects_grow(
    g: &DataFlowGraph,
    dead: Set<u32>,
    pure_set: Set<u32>,
    m: Map<u32, u32>,
    n: int,
    x: u32,
)
    ensures
        m.contains_key(x) ==> cse_state(g, dead, pure_set, m, n).redirect.contains_key(x),
    decreases n,
{
    if n > 0 {
        lemma_redirects_grow(g, dead, pure_set, m, n - 1, x);
    }
}

/// The innermost region of a node contains it, and none that contains it is
/// smaller; a node without one lies in no region.
pub proof fn law_innermost_is_the_smallest(g: &DataFlowGraph, i: int, s: int)
    requires
        0 <= s < g.subgraphs@.len() <= u32::MAX,
        g.subgraphs@[s].node_range.0.0 <= i < g.subgraphs@[s].node_range.1.0,
    ensures
        innermost(g, i) is Some,
        ({
            let b = g.subgraphs@[(innermost(g, i)->0).0 as int].node_range;
            let o = g.subgraphs@[s].node_range;
            &&& (innermost(g, i)->0).0 < g.subgraphs@.len()
            &&& b.0.0 <= i < b.1.0
            &&& b.1.0 - b.0.0 <= o.1.0 - o.0.0
        }),
{
    let ranges = graph_ranges(g);
    let wanted = covers(ranges, i);
    let r = lemma_smallest_range_exists(ranges, wanted, ranges.len() as int);
    lemma_innermost(g, i, r);
    assert(wanted(s));
}

proof fn lemma_smallest_range_exists(ranges: Seq<(u32, u32)>, wanted: spec_fn(int) -> bool, n: int) -> (r: Option<
    SubGraphId,
>)
    requires
        0 <= n <= ranges.len() <= u32::MAX,
    ensures
        match r {
            None => forall|i: int| 0 <= i < n ==> !#[trigger] wanted(i),
            Some(b) => {
                &&& b.0 < n
                &&& wanted(b.0 as int)
                &&& forall|i: int|
                    0 <= i < n && #[trigger] wanted(i) ==> {
                        let x = ranges[b.0 as int].1 - ranges[b.0 as int].0;
                        let y = ranges[i].1 - ranges[i].0;
                        x < y || x == y && b.0 <= i
                    }
            },
        },
    decreases n,
{
    if n == 0 {
        None
    } else {
        let best = lemma_smallest_range_exists(ranges, wanted, n - 1);
        if !wanted(n - 1) {
            best
        } else {
            match best {
                None => Some(SubGraphId((n - 1) as u32)),
                Some(b) => if ranges[n - 1].1 - ranges[n - 1].0 < ranges[b.0 as int].1 - ranges[b.0 as int].0 {
                    Some(SubGraphId((n - 1) as u32))
                } else {
                    best
                },
            }
        }
    }
}

} // verus!
