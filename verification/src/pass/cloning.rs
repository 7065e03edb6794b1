//! Cloning of nodes: what the structural passes share.
//!
//! A clone has the kind, compute function and metadata of its source, inputs
//! mapped to clones where those exist, and is marked as appended for a
//! subgraph.

use vstd::prelude::*;

use crate::fx::IdMap;
use crate::ir::graph::DataFlowGraph;
use crate::ir::meta::NodeMeta;
use crate::ir::types::{Node, NodeId, SubGraphId};

verus! {

/// The part of a graph that cloning extends, and the map from sources to
/// clones.
#[verifier::ext_equal]
pub struct CloneState {
    pub nodes: Seq<Node>,
    pub pool: Seq<NodeId>,
    pub meta: Seq<NodeMeta>,
    pub map: Map<u32, u32>,
}

/// The id that an input is mapped to.
pub open spec fn mapped_id(map: Map<u32, u32>, x: NodeId) -> NodeId {
    if map.contains_key(x.0) {
        NodeId(map[x.0])
    } else {
        x
    }
}

pub open spec fn mapped_ids(map: Map<u32, u32>, ids: Seq<NodeId>) -> Seq<NodeId> {
    Seq::new(ids.len(), |k: int| mapped_id(map, ids[k]))
}

/// Inputs of node `i` in a state.
pub open spec fn state_inputs(st: CloneState, i: int) -> Seq<NodeId> {
    st.pool.subrange(
        st.nodes[i].inputs_offset as int,
        st.nodes[i].inputs_offset + st.nodes[i].input_count,
    )
}

/// Metadata of a clone.
pub open spec fn clone_meta(m: NodeMeta, owner: SubGraphId) -> NodeMeta {
    NodeMeta { hoisted: true, hoisted_owner: owner, ..m }
}

/// The state after node `src` has been cloned.
pub open spec fn clone_step(st: CloneState, src: int, owner: SubGraphId) -> CloneState {
    CloneState {
        nodes: st.nodes.push(
            Node { inputs_offset: st.pool.len() as u32, ..st.nodes[src] },
        ),
        pool: st.pool + mapped_ids(st.map, state_inputs(st, src)),
        meta: st.meta.push(clone_meta(st.meta[src], owner)),
        map: st.map.insert(src as u32, st.nodes.len() as u32),
    }
}

/// The state after the sources have been cloned in order.
pub open spec fn clone_all(st: CloneState, srcs: Seq<int>, owner: SubGraphId) -> CloneState
    decreases srcs.len(),
{
    if srcs.len() == 0 {
        st
    } else {
        clone_step(clone_all(st, srcs.drop_last(), owner), srcs.last(), owner)
    }
}

/// The state of a graph with a map.
pub open spec fn state_of(g: &DataFlowGraph, map: Map<u32, u32>) -> CloneState {
    CloneState { nodes: g.nodes@, pool: g.inputs_pool@, meta: g.meta@, map }
}

/// `b` is `a` with nodes appended: the old nodes' downstream lists stay, and
/// each appended node has an empty one.
pub open spec fn appended(a: &DataFlowGraph, b: &DataFlowGraph) -> bool {
    &&& b.same_but_edges(a)
    &&& a.nodes@.len() <= b.nodes@.len()
    &&& b.downstreams@.len() == a.downstreams@.len() + (b.nodes@.len() - a.nodes@.len())
    &&& b.downstreams@.take(a.downstreams@.len() as int) == a.downstreams@
    &&& forall|k: int|
        a.downstreams@.len() <= k < b.downstreams@.len() ==> (#[trigger] b.downstreams@[k])@.len()
            == 0
}

pub proof fn lemma_appended_trans(a: &DataFlowGraph, b: &DataFlowGraph, c: &DataFlowGraph)
    requires
        appended(a, b),
        appended(b, c),
    ensures
        appended(a, c),
{
    let x = a.downstreams@.len() as int;
    let y = b.downstreams@.len() as int;
    assert(c.downstreams@.take(x) =~= c.downstreams@.take(y).take(x));
    assert forall|k: int| x <= k < c.downstreams@.len() implies (
    #[trigger] c.downstreams@[k])@.len() == 0 by {
        if k < y {
            assert(c.downstreams@.take(y)[k] == b.downstreams@[k]);
        }
    }
}

pub proof fn lemma_appended_refl(a: &DataFlowGraph)
    ensures
        appended(a, a),
{
    assert(a.downstreams@.take(a.downstreams@.len() as int) =~= a.downstreams@);
}

/// Appends a clone of node `src` for the owner.
pub fn clone_node(graph: &mut DataFlowGraph, src: usize, map: &mut IdMap, owner: SubGraphId) -> (id:
    NodeId)
    requires
        old(graph).wf(),
        src < old(graph).nodes@.len() < u32::MAX,
        old(graph).inputs_pool@.len() + old(graph).nodes@[src as int].input_count <= u32::MAX,
    ensures
        id.0 == old(graph).nodes@.len(),
        final(graph).wf(),
        state_of(final(graph), final(map)@) == clone_step(
            state_of(old(graph), old(map)@),
            src as int,
            owner,
        ),
        appended(old(graph), final(graph)),
{
    let ghost a = *graph;
    let ghost m = map@;
    let node = graph.nodes[src];
    let mut new_inputs: Vec<NodeId> = Vec::new();
    {
        let inputs = graph.inputs(src);
        let mut j: usize = 0;
        while j < inputs.len()
            invariant
                m == map@,
                j <= inputs@.len(),
                new_inputs@ == mapped_ids(m, inputs@).take(j as int),
            decreases inputs@.len() - j,
        {
            let x = inputs[j];
            let y = match map.get(x.0) {
                Some(c) => NodeId(c),
                None => x,
            };
            new_inputs.push(y);
            assert(new_inputs@ =~= mapped_ids(m, inputs@).take(j + 1));
            j = j + 1;
        }
        assert(new_inputs@ =~= mapped_ids(m, a.inputs_of(src as int)));
    }
    let id = graph.add_node_raw(node.kind, new_inputs.as_slice(), node.compute_fn);
    let ghost b = *graph;
    let mut meta = graph.meta[src].clone();
    meta.hoisted = true;
    meta.hoisted_owner = owner;
    graph.meta.set(id.0 as usize, meta);
    map.insert(src as u32, id.0);
    proof {
        assert(graph.meta@ =~= a.meta@.push(clone_meta(a.meta@[src as int], owner)));
        assert(state_inputs(state_of(&a, m), src as int) == a.inputs_of(src as int));
        assert(state_of(graph, map@) =~= clone_step(state_of(&a, m), src as int, owner));
        assert(graph.downstreams@.take(a.downstreams@.len() as int) =~= a.downstreams@);
        assert forall|k: int| a.downstreams@.len() <= k < graph.downstreams@.len() implies (
        #[trigger] graph.downstreams@[k])@.len() == 0 by {
            assert(graph.downstreams@.last() == graph.downstreams@[k]);
        }
        assert forall|k: int| #![trigger graph.nodes@[k]] 0 <= k < graph.nodes@.len() implies graph.nodes@[k].inputs_offset
            + graph.nodes@[k].input_count <= graph.inputs_pool@.len() by {
            if k < a.nodes@.len() {
                assert(a.nodes@[k].inputs_offset + a.nodes@[k].input_count
                    <= a.inputs_pool@.len());
            }
        }
    }
    id
}

// ---- laws ------------------------------------------------------------------

/// Cloning only appends, one node for each source.
pub proof fn lemma_cloning_appends(st: CloneState, srcs: Seq<int>, owner: SubGraphId)
    ensures
        clone_all(st, srcs, owner).nodes.len() == st.nodes.len() + srcs.len(),
        clone_all(st, srcs, owner).meta.len() == st.meta.len() + srcs.len(),
        clone_all(st, srcs, owner).pool.len() >= st.pool.len(),
        forall|i: int| #![trigger clone_all(st, srcs, owner).nodes[i]]
            0 <= i < st.nodes.len() ==> clone_all(st, srcs, owner).nodes[i] == st.nodes[i],
        forall|i: int| #![trigger clone_all(st, srcs, owner).meta[i]]
            0 <= i < st.meta.len() ==> clone_all(st, srcs, owner).meta[i] == st.meta[i],
        forall|i: int| #![trigger clone_all(st, srcs, owner).pool[i]]
            0 <= i < st.pool.len() ==> clone_all(st, srcs, owner).pool[i] == st.pool[i],
    decreases srcs.len(),
{
    if srcs.len() > 0 {
        lemma_cloning_appends(st, srcs.drop_last(), owner);
    }
}

/// Cloning the first sources and then the others is cloning all of them.
proof fn lemma_cloning_in_two(st: CloneState, srcs: Seq<int>, owner: SubGraphId, m: int)
    requires
        0 <= m <= srcs.len(),
    ensures
        clone_all(st, srcs, owner) == clone_all(clone_all(st, srcs.take(m), owner), srcs.skip(m), owner),
    decreases srcs.len(),
{
    if m == srcs.len() {
        assert(srcs.take(m) =~= srcs);
        assert(srcs.skip(m).len() == 0);
    } else {
        lemma_cloning_in_two(st, srcs.drop_last(), owner, m);
        assert(srcs.drop_last().take(m) =~= srcs.take(m));
        assert(srcs.drop_last().skip(m) =~= srcs.skip(m).drop_last());
        assert(srcs.skip(m).last() == srcs.last());
    }
}

/// Every source is mapped to its clone, and nothing else is mapped anew.
pub proof fn lemma_sources_are_mapped(st: CloneState, srcs: Seq<int>, owner: SubGraphId)
    requires
        srcs.no_duplicates(),
        st.nodes.len() + srcs.len() <= u32::MAX,
        forall|k: int| #![trigger srcs[k]] 0 <= k < srcs.len() ==> 0 <= srcs[k] < st.nodes.len(),
    ensures
        forall|k: int| #![trigger srcs[k]]
            0 <= k < srcs.len() ==> clone_all(st, srcs, owner).map.contains_key(srcs[k] as u32)
                && clone_all(st, srcs, owner).map[srcs[k] as u32] == st.nodes.len() + k,
        forall|x: u32| #![trigger clone_all(st, srcs, owner).map.contains_key(x)]
            !srcs.contains(x as int) ==> (clone_all(st, srcs, owner).map.contains_key(x)
                <==> st.map.contains_key(x)) && clone_all(st, srcs, owner).map[x] == st.map[x],
    decreases srcs.len(),
{
    let e = clone_all(st, srcs, owner);
    if srcs.len() > 0 {
        let f = srcs.drop_last();
        assert(f.no_duplicates());
        assert forall|k: int| #![trigger f[k]] 0 <= k < f.len() implies 0 <= f[k] < st.nodes.len() by {
            assert(f[k] == srcs[k]);
        }
        lemma_sources_are_mapped(st, f, owner);
        lemma_cloning_appends(st, f, owner);
        let last = srcs.len() - 1;
        assert(0 <= srcs[last] < st.nodes.len());
        assert forall|k: int| #![trigger srcs[k]] 0 <= k < srcs.len() implies e.map.contains_key(srcs[k] as u32)
            && e.map[srcs[k] as u32] == st.nodes.len() + k by {
            if k < last {
                assert(f[k] == srcs[k]);
                assert(srcs[k] != srcs[last]);
                assert(0 <= srcs[k] < st.nodes.len());
            }
        }
        assert forall|x: u32| #![trigger e.map.contains_key(x)] !srcs.contains(x as int) implies (e.map.contains_key(x)
            <==> st.map.contains_key(x)) && e.map[x] == st.map[x] by {
            if f.contains(x as int) {
                let k = choose|k: int| 0 <= k < f.len() && f[k] == x as int;
                assert(srcs[k] == x as int);
            }
            assert(srcs[last] != x as int);
            assert(clone_all(st, f, owner).map.contains_key(x) <==> st.map.contains_key(x));
        }
    }
}

/// The clone of the source at position `k` does what its source does: it has
/// the same kind, compute function and number of inputs, and the same metadata
/// but for the mark that it was appended for the owner. It works on the clones
/// of those of its inputs that were cloned before it, on what the map already
/// gives for others, and on the same nodes for the rest.
pub proof fn law_clones_do_what_their_sources_do(st: CloneState, srcs: Seq<int>, owner: SubGraphId, k: int)
    requires
        srcs.no_duplicates(),
        forall|j: int| #![trigger srcs[j]] 0 <= j < srcs.len() ==> 0 <= srcs[j] < st.nodes.len(),
        st.meta.len() == st.nodes.len(),
        st.nodes.len() + srcs.len() <= u32::MAX,
        clone_all(st, srcs, owner).pool.len() <= u32::MAX,
        0 <= k < srcs.len(),
        st.nodes[srcs[k]].inputs_offset + st.nodes[srcs[k]].input_count <= st.pool.len(),
    ensures
        ({
            let e = clone_all(st, srcs, owner);
            let c = st.nodes.len() + k;
            &&& c < e.nodes.len()
            &&& e.nodes[c].kind == st.nodes[srcs[k]].kind
            &&& e.nodes[c].compute_fn == st.nodes[srcs[k]].compute_fn
            &&& e.nodes[c].input_count == st.nodes[srcs[k]].input_count
            &&& e.meta[c] == (NodeMeta { hoisted: true, hoisted_owner: owner, ..st.meta[srcs[k]] })
            &&& state_inputs(e, c).len() == state_inputs(st, srcs[k]).len()
            &&& forall|j: int, m: int| #![trigger state_inputs(e, c)[j], srcs[m]]
                0 <= j < state_inputs(e, c).len() && 0 <= m < k && srcs[m] == state_inputs(st, srcs[k])[j].0
                    ==> state_inputs(e, c)[j].0 == st.nodes.len() + m
            &&& forall|j: int| #![trigger state_inputs(e, c)[j]]
                0 <= j < state_inputs(e, c).len() && !srcs.take(k).contains(
                    state_inputs(st, srcs[k])[j].0 as int,
                ) ==> state_inputs(e, c)[j].0 == if st.map.contains_key(state_inputs(st, srcs[k])[j].0) {
                    st.map[state_inputs(st, srcs[k])[j].0]
                } else {
                    state_inputs(st, srcs[k])[j].0
                }
        }),
{
    let e = clone_all(st, srcs, owner);
    let c = st.nodes.len() + k;
    let p = srcs.take(k);
    let q = srcs.take(k + 1);
    let u = clone_all(st, p, owner);
    let v = clone_all(st, q, owner);
    assert(q.drop_last() =~= p);
    assert(q.last() == srcs[k]);
    lemma_cloning_appends(st, p, owner);
    lemma_cloning_in_two(st, srcs, owner, k + 1);
    lemma_cloning_appends(v, srcs.skip(k + 1), owner);
    assert(p.no_duplicates());
    assert forall|j: int| #![trigger p[j]] 0 <= j < p.len() implies 0 <= p[j] < st.nodes.len() by {
        assert(p[j] == srcs[j]);
    }
    lemma_sources_are_mapped(st, p, owner);
    assert(0 <= srcs[k] < st.nodes.len());
    let ins = state_inputs(st, srcs[k]);
    assert(state_inputs(u, srcs[k]) =~= ins);
    assert(v.pool == u.pool + mapped_ids(u.map, ins));
    assert(u.pool.len() <= u32::MAX);
    assert(e.nodes[c] == v.nodes[c]);
    assert(v.nodes[c].inputs_offset == u.pool.len());
    assert(state_inputs(e, c) =~= mapped_ids(u.map, ins)) by {
        assert forall|j: int| 0 <= j < ins.len() implies e.pool[u.pool.len() + j] == mapped_ids(u.map, ins)[j] by {
            assert(v.pool[u.pool.len() + j] == mapped_ids(u.map, ins)[j]);
        }
    }
    assert(e.meta[c] == v.meta[c]);
    assert forall|j: int, m: int| #![trigger state_inputs(e, c)[j], srcs[m]]
        0 <= j < state_inputs(e, c).len() && 0 <= m < k && srcs[m] == ins[j].0 implies state_inputs(e, c)[j].0
        == st.nodes.len() + m by {
        assert(p[m] == srcs[m]);
        assert(u.map.contains_key(p[m] as u32));
        assert(p[m] as u32 == ins[j].0);
    }
    assert forall|j: int| #![trigger state_inputs(e, c)[j]]
        0 <= j < state_inputs(e, c).len() && !p.contains(ins[j].0 as int) implies state_inputs(e, c)[j].0
        == if st.map.contains_key(ins[j].0) {
        st.map[ins[j].0]
    } else {
        ins[j].0
    } by {
        assert(u.map.contains_key(ins[j].0) <==> st.map.contains_key(ins[j].0));
    }
}

/// The inputs of the clone of the source at position `k` lie in the pool.
pub proof fn lemma_clone_inputs_lie_in_the_pool(st: CloneState, srcs: Seq<int>, owner: SubGraphId, k: int)
    requires
        forall|j: int| #![trigger srcs[j]] 0 <= j < srcs.len() ==> 0 <= srcs[j] < st.nodes.len(),
        clone_all(st, srcs, owner).pool.len() <= u32::MAX,
        0 <= k < srcs.len(),
        st.nodes[srcs[k]].inputs_offset + st.nodes[srcs[k]].input_count <= st.pool.len(),
    ensures
        ({
            let e = clone_all(st, srcs, owner);
            let c = st.nodes.len() + k;
            e.nodes[c].inputs_offset + e.nodes[c].input_count <= e.pool.len()
        }),
{
    let p = srcs.take(k);
    let q = srcs.take(k + 1);
    let u = clone_all(st, p, owner);
    let v = clone_all(st, q, owner);
    assert(q.drop_last() =~= p);
    assert(q.last() == srcs[k]);
    lemma_cloning_appends(st, p, owner);
    lemma_cloning_in_two(st, srcs, owner, k + 1);
    lemma_cloning_appends(v, srcs.skip(k + 1), owner);
    assert(0 <= srcs[k] < st.nodes.len());
    assert(u.nodes[srcs[k]] == st.nodes[srcs[k]]);
    assert(clone_all(st, srcs, owner).nodes[st.nodes.len() + k] == v.nodes[st.nodes.len() + k]);
}

} // verus!
