//! Loop-invariant code motion: clones the invariant nodes of a loop body for
//! the function, and redirects the originals to the clones.

use vstd::prelude::*;

use crate::analysis::report::AnalysisReport;
use crate::fx::{no_ids, IdMap};
use crate::ir::graph::DataFlowGraph;
use crate::ir::redirect::{acyclic, lemma_insert_acyclic};
use crate::ir::meta::NodeMeta;
use crate::ir::types::{NodeId, SubGraphId};
use crate::pass::cloning::{
    appended, clone_all, clone_node, law_clones_do_what_their_sources_do, lemma_appended_refl,
    lemma_appended_trans, lemma_cloning_appends, lemma_sources_are_mapped, state_inputs, state_of,
};
use crate::pass::context::OptimizerContext;
use crate::pass::loops::invariant_views;

verus! {

/// Ids as integers.
pub open spec fn id_ints(ids: Seq<NodeId>) -> Seq<int> {
    Seq::new(ids.len(), |k: int| ids[k].0 as int)
}

/// The function for which the invariants of a body are hoisted: that of the
/// loop that the body belongs to.
pub open spec fn hoist_owner(g: &DataFlowGraph, body: SubGraphId) -> Option<SubGraphId> {
    match g.subgraphs@[body.0 as int].loop_parent_sg {
        None => None,
        Some(l) => Some(SubGraphId(g.subgraphs@[l.0 as int].function_id)),
    }
}

/// `b` is `a` after the invariants of one body are hoisted, and `r2` the
/// redirects after it.
pub open spec fn hoisted_body(
    a: &DataFlowGraph,
    b: &DataFlowGraph,
    r1: Map<u32, u32>,
    r2: Map<u32, u32>,
    body: SubGraphId,
    list: Seq<NodeId>,
) -> bool {
    match hoist_owner(a, body) {
        None => *b == *a && r2 == r1,
        Some(owner) => {
            let st = clone_all(state_of(a, no_ids()), id_ints(list), owner);
            &&& appended(a, b)
            &&& state_of(b, st.map) == st
            &&& r2 == r1.union_prefer_right(st.map)
        },
    }
}

/// The graphs and redirects run from the first to the last, body by body.
pub open spec fn licm_chain(
    gs: Seq<DataFlowGraph>,
    rs: Seq<Map<u32, u32>>,
    lists: Seq<(SubGraphId, Seq<NodeId>)>,
) -> bool {
    &&& gs.len() == lists.len() + 1
    &&& rs.len() == lists.len() + 1
    &&& forall|k: int| #![trigger gs[k]]
        0 <= k < lists.len() ==> hoisted_body(
            &gs[k],
            &gs[k + 1],
            rs[k],
            rs[k + 1],
            lists[k].0,
            lists[k].1,
        )
}

/// Whether some list hoists a node.
pub open spec fn hoists_any(g: &DataFlowGraph, lists: Seq<(SubGraphId, Seq<NodeId>)>) -> bool {
    exists|k: int|
        0 <= k < lists.len() && (#[trigger] lists[k]).1.len() > 0 && hoist_owner(g, lists[k].0)
            is Some
}

/// Number of inputs of the listed nodes.
pub open spec fn input_total(g: &DataFlowGraph, list: Seq<NodeId>) -> nat
    decreases list.len(),
{
    if list.len() == 0 {
        0
    } else {
        input_total(g, list.drop_last()) + g.nodes@[list.last().0 as int].input_count as nat
    }
}

/// Number of nodes that hoisting the first `n` lists appends.
pub open spec fn hoisted_nodes(g: &DataFlowGraph, lists: Seq<(SubGraphId, Seq<NodeId>)>, n: int) -> nat
    decreases n,
{
    if n <= 0 {
        0
    } else if hoist_owner(g, lists[n - 1].0) is Some {
        hoisted_nodes(g, lists, n - 1) + lists[n - 1].1.len()
    } else {
        hoisted_nodes(g, lists, n - 1)
    }
}

/// Number of inputs that hoisting the first `n` lists appends.
pub open spec fn hoisted_inputs(g: &DataFlowGraph, lists: Seq<(SubGraphId, Seq<NodeId>)>, n: int) -> nat
    decreases n,
{
    if n <= 0 {
        0
    } else if hoist_owner(g, lists[n - 1].0) is Some {
        hoisted_inputs(g, lists, n - 1) + input_total(g, lists[n - 1].1)
    } else {
        hoisted_inputs(g, lists, n - 1)
    }
}

/// A list names a subgraph, and, where its nodes are hoisted, nodes of the
/// graph.
pub open spec fn list_wf(g: &DataFlowGraph, body: SubGraphId, list: Seq<NodeId>) -> bool {
    &&& body.0 < g.subgraphs@.len()
    &&& g.subgraphs@[body.0 as int].loop_parent_sg is Some ==> {
        &&& (g.subgraphs@[body.0 as int].loop_parent_sg->0).0 < g.subgraphs@.len()
        &&& forall|j: int| 0 <= j < list.len() ==> (#[trigger] list[j]).0 < g.nodes@.len()
    }
}

/// The lists name subgraphs and nodes of the graph, and there is room for the
/// clones.
pub open spec fn licm_wf(g: &DataFlowGraph, lists: Seq<(SubGraphId, Seq<NodeId>)>) -> bool {
    &&& g.wf()
    &&& forall|k: int| #![trigger lists[k]] 0 <= k < lists.len() ==> list_wf(g, lists[k].0, lists[k].1)
    &&& g.nodes@.len() + hoisted_nodes(g, lists, lists.len() as int) <= u32::MAX
    &&& g.inputs_pool@.len() + hoisted_inputs(g, lists, lists.len() as int) <= u32::MAX
}

pub proof fn lemma_hoisted_grows(g: &DataFlowGraph, lists: Seq<(SubGraphId, Seq<NodeId>)>, a: int, b: int)
    requires
        0 <= a <= b,
    ensures
        hoisted_nodes(g, lists, a) <= hoisted_nodes(g, lists, b),
        hoisted_inputs(g, lists, a) <= hoisted_inputs(g, lists, b),
    decreases b - a,
{
    if a < b {
        lemma_hoisted_grows(g, lists, a, b - 1);
    }
}

/// Nodes keep their inputs when others are appended.
proof fn lemma_same_input_total(a: &DataFlowGraph, b: &DataFlowGraph, list: Seq<NodeId>)
    requires
        forall|j: int| 0 <= j < list.len() ==> (#[trigger] list[j]).0 < a.nodes@.len(),
        forall|i: int| 0 <= i < a.nodes@.len() ==> #[trigger] b.nodes@[i] == a.nodes@[i],
    ensures
        input_total(a, list) == input_total(b, list),
    decreases list.len(),
{
    if list.len() > 0 {
        assert forall|j: int| 0 <= j < list.drop_last().len() implies (#[trigger] list.drop_last()[j]).0
            < a.nodes@.len() by {
            assert(list[j] == list.drop_last()[j]);
        }
        lemma_same_input_total(a, b, list.drop_last());
        assert(list[list.len() - 1] == list.last());
    }
}

/// The first nodes of a list have no more inputs than all of them.
pub proof fn lemma_input_total_grows(g: &DataFlowGraph, list: Seq<NodeId>, k: int)
    requires
        0 <= k <= list.len(),
    ensures
        input_total(g, list.take(k)) <= input_total(g, list),
    decreases list.len(),
{
    if k == list.len() {
        assert(list.take(k) =~= list);
    } else {
        lemma_input_total_grows(g, list.drop_last(), k);
        assert(list.drop_last().take(k) =~= list.take(k));
    }
}

/// Hoists the invariants of one body. Returns whether it did.
fn hoist_body(
    graph: &mut DataFlowGraph,
    ctx: &mut OptimizerContext,
    body: SubGraphId,
    list: &Vec<NodeId>,
) -> (did: bool)
    requires
        old(graph).wf(),
        old(ctx).wf(old(graph).nodes@.len() as int),
        list_wf(old(graph), body, list@),
        hoist_owner(old(graph), body) is Some ==> old(graph).nodes@.len() + list@.len() <= u32::MAX
            && old(graph).inputs_pool@.len() + input_total(old(graph), list@) <= u32::MAX,
    ensures
        hoisted_body(
            old(graph),
            final(graph),
            old(ctx).redirect@,
            final(ctx).redirect@,
            body,
            list@,
        ),
        final(graph).wf(),
        hoist_owner(old(graph), body) is Some ==> final(graph).nodes@.len() == old(graph).nodes@.len() + list@.len()
            && final(graph).inputs_pool@.len() == old(graph).inputs_pool@.len() + input_total(old(graph), list@),
        hoist_owner(old(graph), body) is None ==> *final(graph) == *old(graph),
        final(graph).nodes@.len() >= old(graph).nodes@.len(),
        forall|i: int| 0 <= i < old(graph).nodes@.len() ==> #[trigger] final(graph).nodes@[i] == old(graph).nodes@[i],
        final(graph).subgraphs@ == old(graph).subgraphs@,
        *final(ctx) == (OptimizerContext { redirect: final(ctx).redirect, ..*old(ctx) }),
        final(ctx).wf(final(graph).nodes@.len() as int),
        did == (list@.len() > 0 && hoist_owner(old(graph), body) is Some),
        !did ==> *final(graph) == *old(graph),
{
    let ghost a = *graph;
    let ghost r1 = ctx.redirect@;
    let loop_sg = match graph.subgraphs[body.0 as usize].loop_parent_sg {
        None => {
            return false;
        },
        Some(l) => l,
    };
    let owner = SubGraphId(graph.subgraphs[loop_sg.0 as usize].function_id);
    let ghost srcs = id_ints(list@);
    let ghost st0 = state_of(&a, no_ids());
    let mut map = IdMap::new();
    let mut k: usize = 0;
    proof {
        assert(srcs.take(0) =~= Seq::<int>::empty());
        lemma_appended_refl(&a);
    }
    while k < list.len()
        invariant
            a.wf(),
            srcs == id_ints(list@),
            st0 == state_of(&a, no_ids()),
            forall|j: int| 0 <= j < list@.len() ==> (#[trigger] list@[j]).0 < a.nodes@.len(),
            a.nodes@.len() + list@.len() <= u32::MAX,
            a.inputs_pool@.len() + input_total(&a, list@) <= u32::MAX,
            k <= list@.len(),
            k == 0 ==> *graph == a,
            graph.wf(),
            appended(&a, graph),
            graph.nodes@.len() == a.nodes@.len() + k,
            graph.inputs_pool@.len() == a.inputs_pool@.len() + input_total(&a, list@.take(k as int)),
            forall|i: int| 0 <= i < a.nodes@.len() ==> #[trigger] graph.nodes@[i] == a.nodes@[i],
            state_of(graph, map@) == clone_all(st0, srcs.take(k as int), owner),
            forall|x: u32| #[trigger]
                map@.contains_key(x) ==> x < a.nodes@.len() && a.nodes@.len() <= map@[x]
                    < graph.nodes@.len(),
            forall|j: int| 0 <= j < k ==> map@.contains_key((#[trigger] list@[j]).0),
            forall|x: u32| #[trigger]
                map@.contains_key(x) ==> exists|j: int| 0 <= j < k && (#[trigger] list@[j]).0 == x,
        decreases list@.len() - k,
    {
        let src = list[k].0;
        let ghost before = *graph;
        let ghost map0 = map@;
        proof {
            lemma_input_total_grows(&a, list@, k + 1);
            assert(list@.take(k + 1).drop_last() =~= list@.take(k as int));
            assert(list@.take(k + 1).last() == list@[k as int]);
            assert(list@[k as int].0 < a.nodes@.len());
            assert(graph.nodes@[src as int] == a.nodes@[src as int]);
        }
        let id = clone_node(graph, src as usize, &mut map, owner);
        proof {
            lemma_appended_trans(&a, &before, graph);
            assert(srcs.take(k + 1).drop_last() =~= srcs.take(k as int));
            assert(srcs.take(k + 1).last() == src);
            assert(map@ == map0.insert(src, id.0));
            assert forall|x: u32| #[trigger] map@.contains_key(x) implies exists|j: int|
                0 <= j < k + 1 && (#[trigger] list@[j]).0 == x by {
                if x == src {
                    assert(list@[k as int].0 == x);
                } else {
                    let j = choose|j: int| 0 <= j < k && (#[trigger] list@[j]).0 == x;
                    assert(0 <= j < k + 1);
                }
            }
        }
        k = k + 1;
    }
    assert(srcs.take(srcs.len() as int) =~= srcs);
    assert(list@.take(list@.len() as int) =~= list@);
    let mut j: usize = 0;
    proof {
        assert(r1.union_prefer_right(map@.restrict(Set::empty())) =~= r1);
    }
    while j < list.len()
        invariant
            a.nodes@.len() <= graph.nodes@.len() <= u32::MAX,
            j <= list@.len(),
            *ctx == (OptimizerContext { redirect: ctx.redirect, ..*old(ctx) }),
            r1 == old(ctx).redirect@,
            old(ctx).wf(a.nodes@.len() as int),
            acyclic(ctx.redirect@),
            forall|x: u32| #[trigger]
                map@.contains_key(x) ==> x < a.nodes@.len() && a.nodes@.len() <= map@[x]
                    < graph.nodes@.len(),
            forall|q: int| 0 <= q < list@.len() ==> map@.contains_key((#[trigger] list@[q]).0),
            forall|x: u32| #[trigger] ctx.redirect@.contains_key(x) ==> x < a.nodes@.len(),
            forall|x: u32| #[trigger]
                ctx.redirect@.contains_key(x) <==> r1.contains_key(x) || exists|q: int|
                    0 <= q < j && (#[trigger] list@[q]).0 == x,
            forall|x: u32| #[trigger]
                ctx.redirect@.contains_key(x) ==> ctx.redirect@[x] == if (exists|q: int|
                    0 <= q < j && (#[trigger] list@[q]).0 == x) {
                    map@[x]
                } else {
                    r1[x]
                },
        decreases list@.len() - j,
    {
        let old_id = list[j].0;
        let new_id = map.get(old_id).unwrap();
        let ghost before = ctx.redirect@;
        proof {
            assert(map@.contains_key(list@[j as int].0));
            assert(!before.contains_key(new_id));
            lemma_insert_acyclic(before, old_id, new_id);
        }
        ctx.redirect.insert(old_id, new_id);
        proof {
            assert forall|x: u32| #[trigger]
                ctx.redirect@.contains_key(x) <==> r1.contains_key(x) || exists|q: int|
                    0 <= q < j + 1 && (#[trigger] list@[q]).0 == x by {
                if ctx.redirect@.contains_key(x) && !r1.contains_key(x) {
                    if x == old_id {
                        assert(list@[j as int].0 == x);
                    } else {
                        let q = choose|q: int| 0 <= q < j && (#[trigger] list@[q]).0 == x;
                        assert(0 <= q < j + 1);
                    }
                }
            }
            assert forall|x: u32| #[trigger] ctx.redirect@.contains_key(x) implies ctx.redirect@[x]
                == if (exists|q: int| 0 <= q < j + 1 && (#[trigger] list@[q]).0 == x) {
                map@[x]
            } else {
                r1[x]
            } by {
                if x == old_id {
                    assert(list@[j as int].0 == x);
                } else {
                    if exists|q: int| 0 <= q < j + 1 && (#[trigger] list@[q]).0 == x {
                        let q = choose|q: int| 0 <= q < j + 1 && (#[trigger] list@[q]).0 == x;
                        assert(q < j);
                    } else {
                        assert(!(exists|q: int| 0 <= q < j && (#[trigger] list@[q]).0 == x)) by {
                            if exists|q: int| 0 <= q < j && (#[trigger] list@[q]).0 == x {
                                let q = choose|q: int| 0 <= q < j && (#[trigger] list@[q]).0 == x;
                                assert(0 <= q < j + 1 && list@[q].0 == x);
                            }
                        }
                    }
                }
            }
        }
        j = j + 1;
    }
    proof {
        let want = r1.union_prefer_right(map@);
        assert forall|x: u32| ctx.redirect@.contains_key(x) <==> want.contains_key(x) by {
            if map@.contains_key(x) {
                let q = choose|q: int| 0 <= q < list@.len() && (#[trigger] list@[q]).0 == x;
            }
        }
        assert forall|x: u32| ctx.redirect@.contains_key(x) implies ctx.redirect@[x] == want[x] by {
            if map@.contains_key(x) {
                let q = choose|q: int| 0 <= q < list@.len() && (#[trigger] list@[q]).0 == x;
                assert(exists|q: int| 0 <= q < list@.len() && (#[trigger] list@[q]).0 == x);
            }
        }
        assert(ctx.redirect@ =~= want);
    }
    list.len() > 0
}

/// Hoists the invariants of every listed body.
pub fn pass_licm(
    graph: &mut DataFlowGraph,
    ctx: &mut OptimizerContext,
    analysis: Option<&AnalysisReport>,
)
    requires
        analysis is Some ==> licm_wf(old(graph), invariant_views(analysis->0.loop_analysis.invariants@)),
        analysis is Some ==> old(ctx).wf(old(graph).nodes@.len() as int),
    ensures
        analysis is None ==> *final(graph) == *old(graph) && *final(ctx) == *old(ctx),
        analysis is Some ==> ({
            let lists = invariant_views(analysis->0.loop_analysis.invariants@);
            &&& exists|gs: Seq<DataFlowGraph>, rs: Seq<Map<u32, u32>>| #[trigger]
                licm_chain(gs, rs, lists) && gs[0] == *old(graph) && gs[gs.len() - 1] == *final(graph) && rs[0] == old(ctx).redirect@ && rs[rs.len() - 1] == final(ctx).redirect@
            &&& *final(ctx) == (OptimizerContext {
                redirect: final(ctx).redirect,
                mutated: old(ctx).mutated || hoists_any(old(graph), lists),
                ..*old(ctx)
            })
            &&& final(ctx).wf(final(graph).nodes@.len() as int)
            &&& final(graph).wf()
            &&& final(graph).subgraphs@ == old(graph).subgraphs@
            &&& final(graph).nodes@.len() >= old(graph).nodes@.len()
            &&& !final(ctx).mutated ==> *final(graph) == *old(graph)
        }),
{
    let report = match analysis {
        None => {
            return;
        },
        Some(r) => &r.loop_analysis,
    };
    let ghost first = *graph;
    let ghost lists = invariant_views(report.invariants@);
    let ghost mut gs = seq![first];
    let ghost mut rs = seq![ctx.redirect@];
    let mut hoisted = false;
    let mut k: usize = 0;
    while k < report.invariants.len()
        invariant
            lists == invariant_views(report.invariants@),
            licm_wf(&first, lists),
            first == *old(graph),
            k <= report.invariants@.len(),
            gs.len() == k + 1,
            rs.len() == k + 1,
            gs[0] == first,
            gs[k as int] == *graph,
            rs[0] == old(ctx).redirect@,
            rs[k as int] == ctx.redirect@,
            forall|q: int| #![trigger gs[q]]
                0 <= q < k ==> hoisted_body(
                    &gs[q],
                    &gs[q + 1],
                    rs[q],
                    rs[q + 1],
                    lists[q].0,
                    lists[q].1,
                ),
            !hoisted ==> *graph == first,
            graph.wf(),
            graph.subgraphs@ == first.subgraphs@,
            graph.nodes@.len() == first.nodes@.len() + hoisted_nodes(&first, lists, k as int),
            graph.inputs_pool@.len() == first.inputs_pool@.len() + hoisted_inputs(&first, lists, k as int),
            forall|i: int| 0 <= i < first.nodes@.len() ==> #[trigger] graph.nodes@[i] == first.nodes@[i],
            *ctx == (OptimizerContext { redirect: ctx.redirect, ..*old(ctx) }),
            ctx.wf(graph.nodes@.len() as int),
            hoisted <==> exists|q: int|
                0 <= q < k && (#[trigger] lists[q]).1.len() > 0 && hoist_owner(&first, lists[q].0)
                    is Some,
        decreases report.invariants@.len() - k,
    {
        let entry = &report.invariants[k];
        let ghost before = *graph;
        let ghost gs0 = gs;
        let ghost rs0 = rs;
        let ghost had = hoisted;
        proof {
            lemma_hoisted_grows(&first, lists, k + 1, lists.len() as int);
            assert(lists[k as int].0 == entry.body_sg && lists[k as int].1 == entry.nodes@);
            assert(list_wf(&first, lists[k as int].0, lists[k as int].1));
            assert(hoist_owner(graph, entry.body_sg) == hoist_owner(&first, entry.body_sg));
            if hoist_owner(&first, entry.body_sg) is Some {
                lemma_same_input_total(&first, graph, entry.nodes@);
            }
        }
        let did = hoist_body(graph, ctx, entry.body_sg, &entry.nodes);
        proof {
            assert(hoist_owner(&before, entry.body_sg) == hoist_owner(&first, entry.body_sg));
            gs = gs0.push(*graph);
            rs = rs0.push(ctx.redirect@);
            assert forall|q: int| #![trigger gs[q]] 0 <= q < k + 1 implies hoisted_body(
                &gs[q],
                &gs[q + 1],
                rs[q],
                rs[q + 1],
                lists[q].0,
                lists[q].1,
            ) by {
                assert(gs[q] == gs0[q]);
                if q < k {
                    assert(gs[q + 1] == gs0[q + 1] && rs[q + 1] == rs0[q + 1]);
                }
            }
            if had {
                let q = choose|q: int|
                    0 <= q < k && (#[trigger] lists[q]).1.len() > 0 && hoist_owner(
                        &first,
                        lists[q].0,
                    ) is Some;
                assert(0 <= q < k + 1);
            }
            if did {
                assert(lists[k as int].1.len() > 0);
            }
        }
        if did {
            hoisted = true;
        }
        k = k + 1;
    }
    proof {
        assert(licm_chain(gs, rs, lists));
    }
    if hoisted {
        ctx.mutated = true;
    }
}

// ---- laws ------------------------------------------------------------------

/// A hoisted node is replaced by a node that does the same, outside the loop:
/// the original stands for a clone with its kind, compute function and
/// metadata, which is marked as one of the loop's function. The clone works on
/// the replacements of those inputs that were hoisted before, and on the same
/// nodes for the rest. Old nodes stay as they are, and no other node is
/// redirected.
pub proof fn law_hoisted_nodes_do_the_same(
    a: &DataFlowGraph,
    b: &DataFlowGraph,
    r1: Map<u32, u32>,
    r2: Map<u32, u32>,
    body: SubGraphId,
    list: Seq<NodeId>,
    k: int,
)
    requires
        hoisted_body(a, b, r1, r2, body, list),
        a.wf(),
        b.wf(),
        list_wf(a, body, list),
        a.subgraphs@[body.0 as int].loop_parent_sg is Some,
        list.no_duplicates(),
        0 <= k < list.len(),
    ensures
        ({
            let s = list[k].0 as int;
            let c = a.nodes@.len() + k;
            let l = a.subgraphs@[body.0 as int].loop_parent_sg->0;
            let owner = a.subgraphs@[l.0 as int].function_id;
            &&& r2.contains_key(list[k].0) && r2[list[k].0] == c < b.nodes@.len()
            &&& b.nodes@[c].kind == a.nodes@[s].kind
            &&& b.nodes@[c].compute_fn == a.nodes@[s].compute_fn
            &&& b.meta@[c] == (NodeMeta { hoisted: true, hoisted_owner: SubGraphId(owner), ..a.meta@[s] })
            &&& b.inputs_of(c).len() == a.inputs_of(s).len()
            &&& forall|j: int, m: int| #![trigger b.inputs_of(c)[j], list[m]]
                0 <= j < a.inputs_of(s).len() && 0 <= m < k && list[m] == a.inputs_of(s)[j] ==> b.inputs_of(c)[j].0
                    == r2[list[m].0]
            &&& forall|j: int| #![trigger b.inputs_of(c)[j]]
                0 <= j < a.inputs_of(s).len() && !list.take(k).contains(a.inputs_of(s)[j]) ==> b.inputs_of(c)[j]
                    == a.inputs_of(s)[j]
        }),
        b.nodes@.len() == a.nodes@.len() + list.len(),
        forall|i: int| #![trigger b.nodes@[i]] 0 <= i < a.nodes@.len() ==> b.nodes@[i] == a.nodes@[i],
        forall|x: u32| #![trigger r2.contains_key(x)]
            !list.contains(NodeId(x)) ==> (r2.contains_key(x) <==> r1.contains_key(x)) && (r1.contains_key(x)
                ==> r2[x] == r1[x]),
{
    let owner = hoist_owner(a, body)->0;
    let st = state_of(a, no_ids());
    let srcs = id_ints(list);
    let e = clone_all(st, srcs, owner);
    assert(srcs.no_duplicates()) by {
        assert forall|x: int, y: int| 0 <= x < srcs.len() && 0 <= y < srcs.len() && x != y implies srcs[x] != srcs[y] by {
            assert(list[x] != list[y]);
        }
    }
    assert forall|j: int| #![trigger srcs[j]] 0 <= j < srcs.len() implies 0 <= srcs[j] < st.nodes.len() by {
        assert(list[j].0 < a.nodes@.len());
    }
    lemma_cloning_appends(st, srcs, owner);
    lemma_sources_are_mapped(st, srcs, owner);
    assert(e == state_of(b, e.map));
    assert(list[k].0 < a.nodes@.len());
    let s = list[k].0 as int;
    assert(srcs[k] == s);
    assert(a.nodes@[s].inputs_offset + a.nodes@[s].input_count <= a.inputs_pool@.len());
    law_clones_do_what_their_sources_do(st, srcs, owner, k);
    let c = a.nodes@.len() + k;
    assert(state_inputs(st, s) == a.inputs_of(s));
    assert(state_inputs(e, c) == b.inputs_of(c));
    assert(e.map.contains_key(srcs[k] as u32));
    assert forall|j: int, m: int| #![trigger b.inputs_of(c)[j], list[m]]
        0 <= j < a.inputs_of(s).len() && 0 <= m < k && list[m] == a.inputs_of(s)[j] implies b.inputs_of(c)[j].0
        == r2[list[m].0] by {
        assert(srcs[m] == list[m].0);
        assert(e.map.contains_key(srcs[m] as u32));
        assert(state_inputs(e, c)[j].0 == a.nodes@.len() + m);
    }
    assert forall|j: int| #![trigger b.inputs_of(c)[j]]
        0 <= j < a.inputs_of(s).len() && !list.take(k).contains(a.inputs_of(s)[j]) implies b.inputs_of(c)[j]
        == a.inputs_of(s)[j] by {
        let x = a.inputs_of(s)[j];
        if srcs.take(k).contains(x.0 as int) {
            let m = choose|m: int| 0 <= m < srcs.take(k).len() && srcs.take(k)[m] == x.0 as int;
            assert(list.take(k)[m] == x);
        }
        assert(state_inputs(e, c)[j].0 == x.0);
    }
    assert forall|i: int| #![trigger b.nodes@[i]] 0 <= i < a.nodes@.len() implies b.nodes@[i] == a.nodes@[i] by {
        assert(e.nodes[i] == st.nodes[i]);
    }
    assert forall|x: u32| #![trigger r2.contains_key(x)] !list.contains(NodeId(x)) implies (r2.contains_key(x)
        <==> r1.contains_key(x)) && (r1.contains_key(x) ==> r2[x] == r1[x]) by {
        if srcs.contains(x as int) {
            let m = choose|m: int| 0 <= m < srcs.len() && srcs[m] == x as int;
            assert(list[m] == NodeId(x));
        }
        assert(e.map.contains_key(x) <==> st.map.contains_key(x));
    }
}

} // verus!
